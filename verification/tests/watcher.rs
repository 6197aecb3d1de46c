use pixel_agents::transcript::TranscriptEvent;
use pixel_agents::watcher::{is_recent_transcript, is_safe_path, safe_path_verdict, TranscriptReader};
use std::io::{Read, Seek, SeekFrom, Write};
use std::path::{Path, PathBuf};

const TURN_END_LINE: &str = r#"{"type":"system","subtype":"turn_duration","durationMs":100}"#;
const TOOL_USE_LINE: &str = r#"{"type":"assistant","message":{"role":"assistant","content":[{"type":"tool_use","id":"t1","name":"Read","input":{}}]}}"#;

/// Reads what was appended to `tmp` since the reader's last read and hands it
/// to the reader, as the program's loop does with the reader's file.
fn read_new_events(reader: &mut TranscriptReader, tmp: &tempfile::NamedTempFile) -> Vec<TranscriptEvent> {
    assert_eq!(reader.path().as_path(), tmp.path());
    let mut file = match tmp.reopen() {
        Ok(f) => f,
        Err(_) => return vec![],
    };
    if file.seek(SeekFrom::Start(reader.offset())).is_err() {
        return vec![];
    }
    let mut new_content = String::new();
    if file.read_to_string(&mut new_content).is_err() {
        return vec![];
    }
    let end = match file.stream_position() {
        Ok(pos) => pos,
        Err(_) => return vec![],
    };
    reader.ingest(&new_content, end)
}

#[test]
fn test_read_complete_line() {
    let mut tmp = tempfile::NamedTempFile::new().unwrap();
    tmp.write_all(format!("{}\n", TURN_END_LINE).as_bytes()).unwrap();
    tmp.flush().unwrap();

    let mut reader = TranscriptReader::new(tmp.path().to_path_buf());
    let events = read_new_events(&mut reader, &tmp);

    assert_eq!(events.len(), 1);
    assert_eq!(events[0], TranscriptEvent::TurnEnd);
}

#[test]
fn test_read_partial_then_complete() {
    let mut tmp = tempfile::NamedTempFile::new().unwrap();

    // Write partial line (no newline at end)
    tmp.write_all(TURN_END_LINE.as_bytes()).unwrap();
    tmp.flush().unwrap();

    let mut reader = TranscriptReader::new(tmp.path().to_path_buf());

    // First read: no complete lines yet
    let events = read_new_events(&mut reader, &tmp);
    assert_eq!(events.len(), 0);

    // Write the newline to complete the line
    tmp.write_all(b"\n").unwrap();
    tmp.flush().unwrap();

    // Second read: should now return 1 event
    let events = read_new_events(&mut reader, &tmp);
    assert_eq!(events.len(), 1);
    assert_eq!(events[0], TranscriptEvent::TurnEnd);
}

#[test]
fn test_read_multiple_lines_at_once() {
    let mut tmp = tempfile::NamedTempFile::new().unwrap();
    tmp.write_all(format!("{}\n{}\n", TURN_END_LINE, TOOL_USE_LINE).as_bytes()).unwrap();
    tmp.flush().unwrap();

    let mut reader = TranscriptReader::new(tmp.path().to_path_buf());
    let events = read_new_events(&mut reader, &tmp);

    assert_eq!(events.len(), 2);
    assert_eq!(events[0], TranscriptEvent::TurnEnd);
    assert_eq!(
        events[1],
        TranscriptEvent::ToolStart {
            tool_name: "Read".to_string(),
            tool_use_id: "t1".to_string(),
        }
    );
}

#[test]
fn test_safe_path_rejects_escape() {
    let dangerous = Path::new("/etc/passwd");
    let root = Path::new("/Users/test/.transcripts");
    assert!(!is_safe_path(dangerous, root));
}

#[test]
fn test_safe_path_accepts_valid() {
    // Use tempfile to get a real path that canonicalize can resolve
    let tmp_dir = tempfile::tempdir().unwrap();
    let root = tmp_dir.path();
    let child = root.join("sessions").join("abc.jsonl");
    // child doesn't need to exist — fallback string prefix handles it
    assert!(is_safe_path(&child, root));
}

// ---- further cases ----

#[test]
fn ingest_complete_line() {
    let mut reader = TranscriptReader::new(PathBuf::from("t.jsonl"));
    let text = format!("{}\n", TURN_END_LINE);
    let events = reader.ingest(&text, text.len() as u64);
    assert_eq!(events, vec![TranscriptEvent::TurnEnd]);
    assert_eq!(reader.offset(), text.len() as u64);
}

#[test]
fn ingest_partial_then_complete() {
    let mut reader = TranscriptReader::new(PathBuf::from("t.jsonl"));
    let events = reader.ingest(TURN_END_LINE, TURN_END_LINE.len() as u64);
    assert!(events.is_empty());
    let events = reader.ingest("\n", TURN_END_LINE.len() as u64 + 1);
    assert_eq!(events, vec![TranscriptEvent::TurnEnd]);
}

#[test]
fn ingest_line_split_across_reads() {
    let mut reader = TranscriptReader::new(PathBuf::from("t.jsonl"));
    let (a, b) = TOOL_USE_LINE.split_at(30);
    assert!(reader.ingest(a, 30).is_empty());
    let rest = format!("{}\n{}\n", b, TURN_END_LINE);
    let events = reader.ingest(&rest, 500);
    assert_eq!(
        events,
        vec![
            TranscriptEvent::ToolStart { tool_name: "Read".to_string(), tool_use_id: "t1".to_string() },
            TranscriptEvent::TurnEnd,
        ]
    );
    assert_eq!(reader.offset(), 500);
}

#[test]
fn ingest_multiple_lines_and_skips_blank_and_bad_ones() {
    let mut reader = TranscriptReader::new(PathBuf::from("t.jsonl"));
    let text = format!("{}\n\n{{oops\n{}\n", TURN_END_LINE, TOOL_USE_LINE);
    let events = reader.ingest(&text, 1);
    assert_eq!(events.len(), 2);
    assert_eq!(events[0], TranscriptEvent::TurnEnd);
    assert_eq!(
        events[1],
        TranscriptEvent::ToolStart { tool_name: "Read".to_string(), tool_use_id: "t1".to_string() }
    );
}

#[test]
fn ingest_non_ascii_text() {
    let mut reader = TranscriptReader::new(PathBuf::from("t.jsonl"));
    let line = r#"{"type":"user","message":{"content":[{"type":"tool_result","tool_use_id":"ü→✓"}]}}"#;
    let text = format!("{}\n", line);
    let events = reader.ingest(&text, 0);
    assert_eq!(events, vec![TranscriptEvent::ToolEnd { tool_use_id: "ü→✓".to_string() }]);
}

#[test]
fn reader_keeps_its_path() {
    let reader = TranscriptReader::new(PathBuf::from("/x/y.jsonl"));
    assert_eq!(reader.path(), &PathBuf::from("/x/y.jsonl"));
    assert_eq!(reader.offset(), 0);
}

#[test]
fn verdict_uses_resolved_paths_when_both_resolve() {
    // when both resolve, the resolved comparison decides
    assert!(safe_path_verdict(Some(true), "/etc", "/a/b"));
    assert!(!safe_path_verdict(Some(false), "/a/b/c", "/a/b"));
    // otherwise the raw text decides
    assert!(safe_path_verdict(None, "/a/bc", "/a/b"));
    assert!(!safe_path_verdict(None, "/etc", "/a"));
}

#[test]
fn resolved_paths_compare_whole_components() {
    let tmp = tempfile::tempdir().unwrap();
    let root = tempfile::Builder::new().prefix("a").tempdir_in(tmp.path()).unwrap();
    let name = root.path().file_name().unwrap().to_string_lossy().to_string();
    // a sibling whose name starts with the root's name
    let sibling = tempfile::Builder::new().prefix(&name).tempdir_in(tmp.path()).unwrap();
    assert!(sibling.path().to_string_lossy().starts_with(root.path().to_string_lossy().as_ref()));
    assert!(!is_safe_path(sibling.path(), root.path()));
    let child = tempfile::Builder::new().tempdir_in(root.path()).unwrap();
    assert!(is_safe_path(child.path(), root.path()));
}

#[test]
fn active_transcripts_are_recent_non_empty_jsonl_files() {
    assert!(is_recent_transcript(Some("jsonl"), true, Some(10), Some(599)));
    assert!(!is_recent_transcript(Some("jsonl"), true, Some(10), Some(600)));
    assert!(!is_recent_transcript(Some("json"), true, Some(10), Some(5)));
    assert!(!is_recent_transcript(None, true, Some(10), Some(5)));
    assert!(!is_recent_transcript(Some("jsonl"), false, Some(10), Some(5)));
    assert!(!is_recent_transcript(Some("jsonl"), true, Some(0), Some(5)));
    assert!(!is_recent_transcript(Some("jsonl"), true, None, Some(5)));
    assert!(!is_recent_transcript(Some("jsonl"), true, Some(10), None));
}
