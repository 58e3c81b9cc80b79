use zeta::agent::{parse_session_id, session_to_load, AgentEvent, ChatStep, Session, StreamItem, ToolCall};
use zeta::session::AgentRuntimeError;

fn stem(name: &str) -> &str {
    name.strip_suffix(".json").unwrap()
}

#[test]
fn new_session_is_empty_with_version_seven_id() {
    let s: Session<u8> = Session::new();
    assert!(s.history.is_empty());
    assert_eq!((s.session_id >> 76) & 0xf, 7);
    assert_eq!((s.session_id >> 62) & 0x3, 2);
}

#[test]
fn file_name_is_hyphenated_id() {
    let s: Session<u8> = Session { session_id: 0xa1a2a3a4b1b2c1c2d1d2d3d4d5d6d7d8, history: vec![] };
    assert_eq!(s.file_name(), "a1a2a3a4-b1b2-c1c2-d1d2-d3d4d5d6d7d8.json");
    let z: Session<u8> = Session { session_id: 0, history: vec![] };
    assert_eq!(z.file_name(), "00000000-0000-0000-0000-000000000000.json");
}

#[test]
fn parse_session_id_accepts_every_form() {
    let id = 0x67e5504410b1426f9247bb680e5fe0c8u128;
    for text in [
        "67e55044-10b1-426f-9247-bb680e5fe0c8",
        "67e5504410b1426f9247bb680e5fe0c8",
        "{67e55044-10b1-426f-9247-bb680e5fe0c8}",
        "urn:uuid:67e55044-10b1-426f-9247-bb680e5fe0c8",
        "URN:UUID:67E55044-10B1-426F-9247-BB680E5FE0C8",
    ] {
        assert_eq!(parse_session_id(text).unwrap(), id, "{}", text);
    }
}

#[test]
fn parse_session_id_rejects_non_uuids() {
    for text in ["", "nope", "67e55044-10b1-426f-9247-bb680e5fe0c", "67e55044_10b1_426f_9247_bb680e5fe0c8", "g7e5504410b1426f9247bb680e5fe0c8"] {
        assert!(matches!(parse_session_id(text), Err(AgentRuntimeError::Uuid(_))), "{}", text);
    }
}

#[test]
fn session_to_load_names_the_saved_file() {
    let (id, name) = session_to_load("{67E55044-10B1-426F-9247-BB680E5FE0C8}").unwrap();
    assert_eq!(id, 0x67e5504410b1426f9247bb680e5fe0c8);
    assert_eq!(name, "67e55044-10b1-426f-9247-bb680e5fe0c8.json");
    assert!(matches!(session_to_load("x"), Err(AgentRuntimeError::Uuid(_))));
}

#[test]
fn saved_session_loads_back_law() {
    for id in [0u128, 1, u128::MAX, 0x0123456789abcdef0123456789abcdef] {
        let s: Session<u8> = Session { session_id: id, history: vec![] };
        let saved = s.file_name();
        let (loaded, name) = session_to_load(stem(&saved)).unwrap();
        assert_eq!(loaded, id);
        assert_eq!(name, saved);
    }
    let fresh: Session<u8> = Session::new();
    let (loaded, _) = session_to_load(stem(&fresh.file_name())).unwrap();
    assert_eq!(loaded, fresh.session_id);
}

fn call() -> ToolCall {
    ToolCall { name: "bash".to_string(), arguments: "{\"command\":\"ls\"}".to_string(), entries: None }
}

#[test]
fn stream_items_become_events() {
    let mut s: Session<u32> = Session { session_id: 5, history: vec![1] };
    assert_eq!(s.on_stream_item(StreamItem::Text("hi".to_string())), ChatStep::Emit(AgentEvent::Token("hi".to_string())));
    assert_eq!(s.on_stream_item(StreamItem::ToolCall(call())), ChatStep::Emit(AgentEvent::ToolCall(call())));
    assert_eq!(s.on_stream_item(StreamItem::ToolResult), ChatStep::Emit(AgentEvent::ToolCallDone));
    assert_eq!(s.on_stream_item(StreamItem::OtherAssistant), ChatStep::Nothing);
    assert_eq!(s.on_stream_item(StreamItem::Other), ChatStep::Nothing);
    assert_eq!(s.on_stream_item(StreamItem::Failed("boom".to_string())), ChatStep::Abort(AgentEvent::Error("boom".to_string())));
    assert_eq!(s.history, vec![1]);
    assert_eq!(s.session_id, 5);
}

#[test]
fn final_response_extends_history() {
    let mut s: Session<u32> = Session { session_id: 5, history: vec![1] };
    assert_eq!(s.on_stream_item(StreamItem::Final(Some(vec![2, 3]))), ChatStep::Nothing);
    assert_eq!(s.history, vec![1, 2, 3]);
    assert_eq!(s.on_stream_item(StreamItem::Final(None)), ChatStep::Nothing);
    assert_eq!(s.history, vec![1, 2, 3]);
}

#[test]
fn history_only_grows_law() {
    let mut s: Session<u32> = Session { session_id: 1, history: vec![7, 8] };
    let items = vec![
        StreamItem::Text("a".to_string()),
        StreamItem::Final(Some(vec![9])),
        StreamItem::ToolResult,
        StreamItem::Final(Some(vec![10, 11])),
    ];
    for item in items {
        let before = s.history.clone();
        s.on_stream_item(item);
        assert!(s.history.starts_with(&before));
    }
    assert_eq!(s.history, vec![7, 8, 9, 10, 11]);
}

#[test]
fn restore_takes_over_loaded_session() {
    let mut s: Session<u32> = Session { session_id: 1, history: vec![7] };
    s.restore(42, vec![1, 2]);
    assert_eq!(s.session_id, 42);
    assert_eq!(s.history, vec![1, 2]);
}

#[test]
fn stream_end_reports_done_once() {
    let s: Session<u32> = Session { session_id: 1, history: vec![] };
    assert_eq!(s.on_stream_end(), ChatStep::Emit(AgentEvent::Done));
    let mut t: Session<u32> = Session { session_id: 1, history: vec![] };
    let items = vec![
        StreamItem::Text("a".to_string()),
        StreamItem::ToolResult,
        StreamItem::Final(Some(vec![1])),
        StreamItem::Other,
    ];
    let mut events = Vec::new();
    for item in items {
        if let ChatStep::Emit(e) = t.on_stream_item(item) {
            events.push(e);
        }
    }
    if let ChatStep::Emit(e) = t.on_stream_end() {
        events.push(e);
    }
    assert_eq!(events, vec![AgentEvent::Token("a".to_string()), AgentEvent::ToolCallDone, AgentEvent::Done]);
}
