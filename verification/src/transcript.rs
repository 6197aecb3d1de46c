//! Transcript lines (one JSON record per line) and the agent events they carry.
use vstd::prelude::*;
use crate::text::str_eq;

verus! {

/// An event read from a transcript.
#[derive(Debug, Clone, PartialEq)]
pub enum TranscriptEvent {
    ToolStart { tool_name: String, tool_use_id: String },
    ToolEnd { tool_use_id: String },
    PermissionPrompt { tool_use_id: String },
    TurnEnd,
}

/// A transcript event as the contracts see it.
pub enum EventRecord {
    ToolStart { tool_name: Seq<char>, tool_use_id: Seq<char> },
    ToolEnd { tool_use_id: Seq<char> },
    PermissionPrompt { tool_use_id: Seq<char> },
    TurnEnd,
}

impl View for TranscriptEvent {
    type V = EventRecord;

    open spec fn view(&self) -> EventRecord {
        match self {
            TranscriptEvent::ToolStart { tool_name, tool_use_id } => EventRecord::ToolStart {
                tool_name: tool_name@,
                tool_use_id: tool_use_id@,
            },
            TranscriptEvent::ToolEnd { tool_use_id } => EventRecord::ToolEnd {
                tool_use_id: tool_use_id@,
            },
            TranscriptEvent::PermissionPrompt { tool_use_id } => EventRecord::PermissionPrompt {
                tool_use_id: tool_use_id@,
            },
            TranscriptEvent::TurnEnd => EventRecord::TurnEnd,
        }
    }
}

/// A JSON value. Numbers keep their text; objects list their members in key
/// order, each key once.
#[derive(Debug, PartialEq)]
pub enum JsonValue {
    Null,
    Bool(bool),
    Number(String),
    Str(String),
    Array(Vec<JsonValue>),
    Object(Vec<(String, JsonValue)>),
}

/// The value of the first member named `key`.
pub open spec fn member(fields: Seq<(String, JsonValue)>, key: Seq<char>) -> Option<JsonValue>
    decreases fields.len(),
{
    if fields.len() == 0 {
        None
    } else if fields[0].0@ == key {
        Some(fields[0].1)
    } else {
        member(fields.drop_first(), key)
    }
}

/// `v[key]` when `v` is an object holding `key`.
pub open spec fn field(v: Option<JsonValue>, key: Seq<char>) -> Option<JsonValue> {
    match v {
        Some(JsonValue::Object(fields)) => member(fields@, key),
        _ => None,
    }
}

/// The text of `v` when it is a string.
pub open spec fn text_of(v: Option<JsonValue>) -> Option<Seq<char>> {
    match v {
        Some(JsonValue::Str(s)) => Some(s@),
        _ => None,
    }
}

/// The elements of `v` when it is an array.
pub open spec fn elements(v: Option<JsonValue>) -> Option<Seq<JsonValue>> {
    match v {
        Some(JsonValue::Array(items)) => Some(items@),
        _ => None,
    }
}

/// The first item whose `"type"` member is the string `tag`.
pub open spec fn first_of_type(items: Seq<JsonValue>, tag: Seq<char>) -> Option<JsonValue>
    decreases items.len(),
{
    if items.len() == 0 {
        None
    } else if text_of(field(Some(items[0]), "type"@)) == Some(tag) {
        Some(items[0])
    } else {
        first_of_type(items.drop_first(), tag)
    }
}

/// The event a transcript record carries:
/// - `"assistant"`: the first `tool_use` item of `message.content` starts a
///   tool (`AskUserQuestion` asks the user instead); its `id` and `name` must be
///   strings;
/// - `"user"`: the first `tool_result` item of `message.content` (an array)
///   ends the tool named by its `tool_use_id` string;
/// - `"system"` with subtype `"turn_duration"`: the turn ended;
/// - anything else carries no event.
pub open spec fn record_event(v: JsonValue) -> Option<EventRecord> {
    let kind = text_of(field(Some(v), "type"@));
    let content = field(field(Some(v), "message"@), "content"@);
    if kind == Some("assistant"@) {
        match elements(content) {
            None => None,
            Some(items) => match first_of_type(items, "tool_use"@) {
                None => None,
                Some(item) => match (text_of(field(Some(item), "id"@)), text_of(
                    field(Some(item), "name"@),
                )) {
                    (Some(id), Some(name)) => if name == "AskUserQuestion"@ {
                        Some(EventRecord::PermissionPrompt { tool_use_id: id })
                    } else {
                        Some(EventRecord::ToolStart { tool_name: name, tool_use_id: id })
                    },
                    _ => None,
                },
            },
        }
    } else if kind == Some("user"@) {
        match elements(content) {
            None => None,
            Some(items) => match first_of_type(items, "tool_result"@) {
                None => None,
                Some(item) => match text_of(field(Some(item), "tool_use_id"@)) {
                    Some(id) => Some(EventRecord::ToolEnd { tool_use_id: id }),
                    None => None,
                },
            },
        }
    } else if kind == Some("system"@) {
        if text_of(field(Some(v), "subtype"@)) == Some("turn_duration"@) {
            Some(EventRecord::TurnEnd)
        } else {
            None
        }
    } else {
        None
    }
}

pub open spec fn event_view(e: Option<TranscriptEvent>) -> Option<EventRecord> {
    match e {
        Some(e) => Some(e@),
        None => None,
    }
}

/// `v[key]`, when `v` is an object holding `key`.
pub fn get_field<'a>(v: &'a JsonValue, key: &str) -> (r: Option<&'a JsonValue>)
    ensures
        match r {
            Some(x) => field(Some(*v), key@) == Some(*x),
            None => field(Some(*v), key@) is None,
        },
{
    match v {
        JsonValue::Object(fields) => {
            let mut i: usize = 0;
            assert(fields@.skip(0) =~= fields@);
            while i < fields.len()
                invariant
                    *v == JsonValue::Object(*fields),
                    i <= fields@.len(),
                    member(fields@, key@) == member(fields@.skip(i as int), key@),
                decreases fields@.len() - i,
            {
                assert(fields@.skip(i as int).drop_first() =~= fields@.skip(i + 1));
                assert(fields@.skip(i as int)[0] == fields@[i as int]);
                let entry = &fields[i];
                if str_eq(entry.0.as_str(), key) {
                    assert(member(fields@.skip(i as int), key@) == Some(fields@[i as int].1));
                    return Some(&entry.1);
                }
                i = i + 1;
            }
            None
        },
        _ => None,
    }
}

/// The text of `v`, when it is a string.
pub fn as_text(v: Option<&JsonValue>) -> (r: Option<&String>)
    ensures
        match r {
            Some(s) => text_of(match v {
                Some(x) => Some(*x),
                None => None,
            }) == Some(s@),
            None => text_of(match v {
                Some(x) => Some(*x),
                None => None,
            }) is None,
        },
{
    match v {
        Some(JsonValue::Str(s)) => Some(s),
        _ => None,
    }
}

/// Whether `v["type"]` is the string `tag`.
fn has_type(v: &JsonValue, tag: &str) -> (r: bool)
    ensures
        r == (text_of(field(Some(*v), "type"@)) == Some(tag@)),
{
    match as_text(get_field(v, "type")) {
        Some(t) => str_eq(t.as_str(), tag),
        None => false,
    }
}

/// The first item whose `"type"` member is the string `tag`.
fn find_of_type<'a>(items: &'a Vec<JsonValue>, tag: &str) -> (r: Option<&'a JsonValue>)
    ensures
        match r {
            Some(x) => first_of_type(items@, tag@) == Some(*x),
            None => first_of_type(items@, tag@) is None,
        },
{
    let mut i: usize = 0;
    assert(items@.skip(0) =~= items@);
    while i < items.len()
        invariant
            i <= items@.len(),
            first_of_type(items@, tag@) == first_of_type(items@.skip(i as int), tag@),
        decreases items@.len() - i,
    {
        assert(items@.skip(i as int).drop_first() =~= items@.skip(i + 1));
        assert(items@.skip(i as int)[0] == items@[i as int]);
        if has_type(&items[i], tag) {
            return Some(&items[i]);
        }
        i = i + 1;
    }
    None
}

/// `v["message"]["content"]` as an array, if it is one.
fn message_content(v: &JsonValue) -> (r: Option<&Vec<JsonValue>>)
    ensures
        match r {
            Some(items) => elements(field(field(Some(*v), "message"@), "content"@)) == Some(
                items@,
            ),
            None => elements(field(field(Some(*v), "message"@), "content"@)) is None,
        },
{
    match get_field(v, "message") {
        Some(m) => match get_field(m, "content") {
            Some(JsonValue::Array(items)) => Some(items),
            _ => None,
        },
        None => None,
    }
}

/// The event a parsed transcript record carries; see `record_event`.
pub fn event_from_json(v: &JsonValue) -> (r: Option<TranscriptEvent>)
    ensures
        event_view(r) == record_event(*v),
{
    let kind = match as_text(get_field(v, "type")) {
        Some(k) => k,
        None => return None,
    };
    if str_eq(kind.as_str(), "assistant") {
        let content = match message_content(v) {
            Some(c) => c,
            None => return None,
        };
        match find_of_type(content, "tool_use") {
            None => None,
            Some(item) => {
                let id = match as_text(get_field(item, "id")) {
                    Some(id) => id,
                    None => return None,
                };
                let name = match as_text(get_field(item, "name")) {
                    Some(n) => n,
                    None => return None,
                };
                if str_eq(name.as_str(), "AskUserQuestion") {
                    Some(TranscriptEvent::PermissionPrompt { tool_use_id: id.clone() })
                } else {
                    Some(TranscriptEvent::ToolStart { tool_name: name.clone(), tool_use_id: id.clone() })
                }
            },
        }
    } else if str_eq(kind.as_str(), "user") {
        // a plain user message has string content, which carries no event
        let content = match message_content(v) {
            Some(c) => c,
            None => return None,
        };
        match find_of_type(content, "tool_result") {
            None => None,
            Some(item) => match as_text(get_field(item, "tool_use_id")) {
                Some(id) => Some(TranscriptEvent::ToolEnd { tool_use_id: id.clone() }),
                None => None,
            },
        }
    } else if str_eq(kind.as_str(), "system") {
        match as_text(get_field(v, "subtype")) {
            Some(sub) => if str_eq(sub.as_str(), "turn_duration") {
                Some(TranscriptEvent::TurnEnd)
            } else {
                None
            },
            None => None,
        }
    } else {
        None
    }
}

/// The value that `serde_json::from_str::<serde_json::Value>` parses from a
/// text, as a `JsonValue`; `None` when the text is not JSON.
pub uninterp spec fn json_parse(text: Seq<char>) -> Option<JsonValue>;

#[verifier::external_type_specification]
#[verifier::external_body]
pub struct ExSerdeValue(serde_json::Value);

/// Parses JSON text with `serde_json::from_str::<serde_json::Value>` and
/// converts the value member for member. Claimed: the result depends on the
/// text alone (`json_parse`).
#[verifier::external_body]
fn parse_json(text: &str) -> (r: Option<JsonValue>)
    ensures
        r == json_parse(text@),
{
    serde_json::from_str::<serde_json::Value>(text).ok().map(json_from_serde)
}

/// Converts a `serde_json::Value`, variant for variant (objects in the map's
/// key order, numbers by their text).
#[verifier::external_body]
fn json_from_serde(v: serde_json::Value) -> JsonValue {
    match v {
        serde_json::Value::Null => JsonValue::Null,
        serde_json::Value::Bool(b) => JsonValue::Bool(b),
        serde_json::Value::Number(n) => JsonValue::Number(n.to_string()),
        serde_json::Value::String(s) => JsonValue::Str(s),
        serde_json::Value::Array(a) => JsonValue::Array(a.into_iter().map(json_from_serde).collect()),
        serde_json::Value::Object(m) => JsonValue::Object(m.into_iter().map(|(k, x)| (k, json_from_serde(x))).collect()),
    }
}

/// The event carried by a transcript line: none for an empty line or a line
/// that is not JSON, else that of the parsed record (`record_event`).
pub open spec fn line_event(line: Seq<char>) -> Option<EventRecord> {
    if line.len() == 0 {
        None
    } else {
        match json_parse(line) {
            Some(v) => record_event(v),
            None => None,
        }
    }
}

/// The event carried by one transcript line; see `line_event`.
pub fn parse_transcript_line(line: &str) -> (r: Option<TranscriptEvent>)
    ensures
        event_view(r) == line_event(line@),
{
    if line.is_empty() {
        return None;
    }
    let v = match parse_json(line) {
        Some(v) => v,
        None => return None,
    };
    event_from_json(&v)
}

/// A user record whose `message.content` is an array ends the tool named by the
/// `tool_use_id` string of its first `tool_result` item, whatever else the item
/// holds (an error flag, the output).
pub proof fn law_tool_result_ends_tool(v: JsonValue, items: Seq<JsonValue>, item: JsonValue, id: Seq<char>)
    requires
        text_of(field(Some(v), "type"@)) == Some("user"@),
        elements(field(field(Some(v), "message"@), "content"@)) == Some(items),
        first_of_type(items, "tool_result"@) == Some(item),
        text_of(field(Some(item), "tool_use_id"@)) == Some(id),
    ensures
        record_event(v) == Some(EventRecord::ToolEnd { tool_use_id: id }),
{
    reveal_strlit("user");
    reveal_strlit("assistant");
    assert("user"@.len() == 4 && "assistant"@.len() == 9);
}

/// An assistant record whose `message.content` is an array starts the tool of
/// its first `tool_use` item (named by its `name` string, with its `id`
/// string); `AskUserQuestion` asks the user instead.
pub proof fn law_tool_use_starts_tool(
    v: JsonValue,
    items: Seq<JsonValue>,
    item: JsonValue,
    id: Seq<char>,
    name: Seq<char>,
)
    requires
        text_of(field(Some(v), "type"@)) == Some("assistant"@),
        elements(field(field(Some(v), "message"@), "content"@)) == Some(items),
        first_of_type(items, "tool_use"@) == Some(item),
        text_of(field(Some(item), "id"@)) == Some(id),
        text_of(field(Some(item), "name"@)) == Some(name),
    ensures
        name != "AskUserQuestion"@ ==> record_event(v) == Some(
            EventRecord::ToolStart { tool_name: name, tool_use_id: id },
        ),
        name == "AskUserQuestion"@ ==> record_event(v) == Some(
            EventRecord::PermissionPrompt { tool_use_id: id },
        ),
{
}

/// A system record with subtype `turn_duration` ends the turn.
pub proof fn law_turn_duration_ends_turn(v: JsonValue)
    requires
        text_of(field(Some(v), "type"@)) == Some("system"@),
        text_of(field(Some(v), "subtype"@)) == Some("turn_duration"@),
    ensures
        record_event(v) == Some(EventRecord::TurnEnd),
{
    reveal_strlit("system");
    reveal_strlit("user");
    reveal_strlit("assistant");
    assert("system"@.len() == 6 && "user"@.len() == 4 && "assistant"@.len() == 9);
}

} // verus!
