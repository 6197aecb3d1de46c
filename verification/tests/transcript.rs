use pixel_agents::transcript::{event_from_json, parse_transcript_line, JsonValue, TranscriptEvent};

#[test]
fn test_tool_use_write() {
    let line = r#"{"type":"assistant","message":{"role":"assistant","content":[{"type":"tool_use","id":"toolu_123","name":"Write","input":{}}]}}"#;
    assert_eq!(
        parse_transcript_line(line),
        Some(TranscriptEvent::ToolStart {
            tool_name: "Write".to_string(),
            tool_use_id: "toolu_123".to_string(),
        })
    );
}

#[test]
fn test_tool_use_read() {
    let line = r#"{"type":"assistant","message":{"role":"assistant","content":[{"type":"tool_use","id":"toolu_456","name":"Read","input":{}}]}}"#;
    assert_eq!(
        parse_transcript_line(line),
        Some(TranscriptEvent::ToolStart {
            tool_name: "Read".to_string(),
            tool_use_id: "toolu_456".to_string(),
        })
    );
}

#[test]
fn test_tool_result() {
    let line = r#"{"type":"user","message":{"role":"user","content":[{"type":"tool_result","tool_use_id":"toolu_123","content":"ok","is_error":false}]}}"#;
    assert_eq!(
        parse_transcript_line(line),
        Some(TranscriptEvent::ToolEnd {
            tool_use_id: "toolu_123".to_string(),
        })
    );
}

#[test]
fn test_ask_user_question() {
    let line = r#"{"type":"assistant","message":{"role":"assistant","content":[{"type":"tool_use","id":"toolu_789","name":"AskUserQuestion","input":{}}]}}"#;
    assert_eq!(
        parse_transcript_line(line),
        Some(TranscriptEvent::PermissionPrompt {
            tool_use_id: "toolu_789".to_string(),
        })
    );
}

#[test]
fn test_system_turn_duration() {
    let line = r#"{"type":"system","subtype":"turn_duration","durationMs":5000}"#;
    assert_eq!(parse_transcript_line(line), Some(TranscriptEvent::TurnEnd));
}

#[test]
fn test_malformed_json() {
    let line = "{broken";
    assert_eq!(parse_transcript_line(line), None);
}

#[test]
fn test_empty_line() {
    let line = "";
    assert_eq!(parse_transcript_line(line), None);
}

#[test]
fn test_user_message_ignored() {
    // user record with string content (plain message) -> None
    let line = r#"{"type":"user","message":{"role":"user","content":"hello there"}}"#;
    assert_eq!(parse_transcript_line(line), None);
}

#[test]
fn test_agent_tool_use() {
    let line = r#"{"type":"assistant","message":{"role":"assistant","content":[{"type":"tool_use","id":"toolu_abc","name":"Agent","input":{}}]}}"#;
    assert_eq!(
        parse_transcript_line(line),
        Some(TranscriptEvent::ToolStart {
            tool_name: "Agent".to_string(),
            tool_use_id: "toolu_abc".to_string(),
        })
    );
}

#[test]
fn test_unknown_tool() {
    let line = r#"{"type":"assistant","message":{"role":"assistant","content":[{"type":"tool_use","id":"toolu_xyz","name":"FutureTool","input":{}}]}}"#;
    assert_eq!(
        parse_transcript_line(line),
        Some(TranscriptEvent::ToolStart {
            tool_name: "FutureTool".to_string(),
            tool_use_id: "toolu_xyz".to_string(),
        })
    );
}

// ---- further cases ----

#[test]
fn first_tool_use_wins_and_text_items_are_skipped() {
    let line = r#"{"type":"assistant","message":{"content":[{"type":"text","text":"hi"},{"type":"tool_use","id":"a","name":"Bash"},{"type":"tool_use","id":"b","name":"Read"}]}}"#;
    assert_eq!(
        parse_transcript_line(line),
        Some(TranscriptEvent::ToolStart { tool_name: "Bash".to_string(), tool_use_id: "a".to_string() })
    );
}

#[test]
fn tool_use_without_string_id_carries_nothing() {
    let line = r#"{"type":"assistant","message":{"content":[{"type":"tool_use","id":7,"name":"Bash"},{"type":"tool_use","id":"b","name":"Read"}]}}"#;
    assert_eq!(parse_transcript_line(line), None);
}

#[test]
fn assistant_without_tool_use_or_array_carries_nothing() {
    assert_eq!(
        parse_transcript_line(r#"{"type":"assistant","message":{"content":[{"type":"text","text":"x"}]}}"#),
        None
    );
    assert_eq!(parse_transcript_line(r#"{"type":"assistant","message":{"content":"x"}}"#), None);
    assert_eq!(parse_transcript_line(r#"{"type":"assistant"}"#), None);
}

#[test]
fn other_records_carry_nothing() {
    assert_eq!(parse_transcript_line(r#"{"type":"system","subtype":"other"}"#), None);
    assert_eq!(parse_transcript_line(r#"{"type":"system"}"#), None);
    assert_eq!(parse_transcript_line(r#"{"type":"summary"}"#), None);
    assert_eq!(parse_transcript_line(r#"{"type":3}"#), None);
    assert_eq!(parse_transcript_line(r#"[1,2]"#), None);
    assert_eq!(parse_transcript_line("42"), None);
}

#[test]
fn event_from_parsed_value() {
    let v = JsonValue::Object(vec![
        ("subtype".to_string(), JsonValue::Str("turn_duration".to_string())),
        ("type".to_string(), JsonValue::Str("system".to_string())),
    ]);
    assert_eq!(event_from_json(&v), Some(TranscriptEvent::TurnEnd));
    let w = JsonValue::Object(vec![("type".to_string(), JsonValue::Null)]);
    assert_eq!(event_from_json(&w), None);
}
