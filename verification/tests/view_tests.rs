use zeta::agent::{AgentEvent, ToolCall};
use zeta::view::{
    input_height, logical_line_count, message_line, message_style, AppState, Color, KeyAction, KeyKind,
    KeyPress, MessageLine, TextStyle, ZetaStyleSheet,
};

fn key(kind: KeyKind, shift: bool, released: bool) -> KeyPress {
    KeyPress { kind, shift, released }
}

fn lines(v: &[&str]) -> Vec<String> {
    v.iter().map(|s| s.to_string()).collect()
}

#[test]
fn new_state_is_empty() {
    let s = AppState::new();
    assert!(s.messages.is_empty());
    assert_eq!((s.scroll_offset, s.max_scroll_offset, s.frame_count), (0, 0, 0));
    assert!(!s.auto_scroll && !s.waiting && !s.exit);
}

#[test]
fn streamed_text_accumulates_law() {
    let mut s = AppState::new();
    s.apply_agent_event(AgentEvent::Token("Hel".to_string()));
    s.apply_agent_event(AgentEvent::Token("lo".to_string()));
    assert_eq!(s.messages, vec![MessageLine::Assistant("Hello".to_string())]);
    let mut t = AppState::new();
    t.apply_agent_event(AgentEvent::Token("Hello".to_string()));
    assert_eq!(s, t);
}

#[test]
fn token_after_other_entry_opens_assistant_entry() {
    let mut s = AppState::new();
    s.messages.push(MessageLine::User("q".to_string()));
    s.apply_agent_event(AgentEvent::Token("a".to_string()));
    assert_eq!(s.messages, vec![MessageLine::User("q".to_string()), MessageLine::Assistant("a".to_string())]);
}

#[test]
fn events_add_entries_and_stop_waiting() {
    let mut s = AppState::new();
    s.waiting = true;
    s.apply_agent_event(AgentEvent::ToolCall(ToolCall {
        name: "bash".to_string(),
        arguments: "{\"command\":\"ls\"}".to_string(),
        entries: None,
    }));
    s.apply_agent_event(AgentEvent::ToolCallDone);
    assert!(s.waiting);
    s.apply_agent_event(AgentEvent::Done);
    assert!(!s.waiting);
    s.waiting = true;
    s.apply_agent_event(AgentEvent::Error("oops".to_string()));
    assert!(!s.waiting);
    assert_eq!(
        s.messages,
        vec![
            MessageLine::ToolCall("bash".to_string(), "{\"command\":\"ls\"}".to_string()),
            MessageLine::Error("oops".to_string())
        ]
    );
}

#[test]
fn frames_wrap_around() {
    let mut s = AppState::new();
    s.next_frame();
    assert_eq!(s.frame_count, 1);
    s.frame_count = usize::MAX;
    s.next_frame();
    assert_eq!(s.frame_count, 0);
}

#[test]
fn scrolling_stays_in_bounds() {
    let mut s = AppState::new();
    s.max_scroll_offset = 2;
    s.auto_scroll = true;
    s.scroll_down();
    assert_eq!(s.scroll_offset, 1);
    assert!(!s.auto_scroll);
    s.scroll_down();
    s.scroll_down();
    assert_eq!(s.scroll_offset, 2);
    s.scroll_offset = 9;
    s.scroll_down();
    assert_eq!(s.scroll_offset, 2);
    s.scroll_up();
    s.scroll_up();
    s.scroll_up();
    assert_eq!(s.scroll_offset, 0);
}

#[test]
fn enter_submits_trimmed_message() {
    let mut s = AppState::new();
    let action = s.handle_key(key(KeyKind::Enter, false, false), &lines(&[" hi", "there "]));
    assert_eq!(action, KeyAction::Submit("hi\nthere".to_string()));
    assert!(s.waiting && s.auto_scroll);
    assert_eq!(s.messages, vec![MessageLine::User("hi\nthere".to_string())]);
}

#[test]
fn enter_with_nothing_typed_does_not_wait() {
    let mut s = AppState::new();
    let action = s.handle_key(key(KeyKind::Enter, false, false), &lines(&["  ", ""]));
    assert_eq!(action, KeyAction::Ignore);
    assert!(!s.waiting);
    assert!(s.auto_scroll);
    assert!(s.messages.is_empty());
}

#[test]
fn other_keys() {
    let mut s = AppState::new();
    assert_eq!(s.handle_key(key(KeyKind::Enter, true, false), &lines(&["x"])), KeyAction::ToTextarea);
    assert_eq!(s.handle_key(key(KeyKind::Other, false, false), &lines(&[])), KeyAction::ToTextarea);
    assert_eq!(s.handle_key(key(KeyKind::Esc, false, true), &lines(&[])), KeyAction::Ignore);
    assert!(!s.exit);
    s.waiting = true;
    assert_eq!(s.handle_key(key(KeyKind::Other, false, false), &lines(&[])), KeyAction::Ignore);
    assert_eq!(s.handle_key(key(KeyKind::Esc, false, false), &lines(&[])), KeyAction::Ignore);
    assert!(s.exit);
}

#[test]
fn indicator_spins_while_waiting() {
    let mut s = AppState::new();
    assert_eq!(s.indicator(), ">");
    s.waiting = true;
    let frames: Vec<&str> = (0..5).map(|k| { s.frame_count = k; s.indicator() }).collect();
    assert_eq!(frames, vec!["/", "-", "\\", "|", "/"]);
}

#[test]
fn update_scroll_follows_output() {
    let mut s = AppState::new();
    s.update_scroll(30, 10);
    assert_eq!(s.max_scroll_offset, 22);
    assert_eq!(s.scroll_offset, 0);
    s.auto_scroll = true;
    s.update_scroll(5, 10);
    assert_eq!((s.max_scroll_offset, s.scroll_offset), (0, 0));
    s.update_scroll(40, 12);
    assert_eq!((s.max_scroll_offset, s.scroll_offset), (30, 30));
}

#[test]
fn input_height_is_clamped() {
    assert_eq!(input_height(0), 3);
    assert_eq!(input_height(1), 3);
    assert_eq!(input_height(5), 7);
    assert_eq!(input_height(30), 20);
}

#[test]
fn logical_lines_wrap_to_width() {
    assert_eq!(logical_line_count(&vec![0, 10, 25], 10), 5);
    assert_eq!(logical_line_count(&vec![], 0), 0);
    assert_eq!(logical_line_count(&vec![0, 0], 0), 2);
    assert_eq!(logical_line_count(&vec![1, 7], 3), 4);
}

#[test]
fn message_lines_and_styles() {
    let call = MessageLine::ToolCall("bash".to_string(), "{\"command\":\"ls\"}".to_string());
    assert_eq!(message_line(&call), Some("-> bash({\"command\":\"ls\"})".to_string()));
    assert_eq!(message_line(&MessageLine::User("q".to_string())), Some("q".to_string()));
    assert_eq!(message_line(&MessageLine::Error("e".to_string())), Some("e".to_string()));
    assert_eq!(message_line(&MessageLine::Assistant("a".to_string())), None);
    assert_eq!(message_style(&call).fg, Some(Color::Green));
    let user = message_style(&MessageLine::User("q".to_string()));
    assert_eq!((user.fg, user.italic), (Some(Color::Cyan), true));
    assert_eq!(message_style(&MessageLine::Error("e".to_string())).fg, Some(Color::Red));
    assert_eq!(message_style(&MessageLine::Assistant("a".to_string())).fg, None);
}

fn styled(fg: Option<Color>, bg: Option<Color>, bold: bool, underlined: bool, dim: bool) -> TextStyle {
    TextStyle { fg, bg, bold, italic: false, underlined, dim }
}

#[test]
fn style_sheet_styles() {
    let sheet = ZetaStyleSheet;
    let colors = [Color::Red, Color::Green, Color::Blue, Color::Cyan, Color::Magenta, Color::Yellow];
    for (i, c) in colors.iter().enumerate() {
        assert_eq!(sheet.heading(i as u8 + 1), styled(Some(*c), None, true, false, false));
    }
    assert_eq!(sheet.heading(0), styled(Some(Color::White), None, true, false, false));
    assert_eq!(sheet.heading(7), styled(Some(Color::White), None, true, false, false));
    assert_eq!(sheet.code(), styled(Some(Color::White), Some(Color::DarkGray), false, false, false));
    assert_eq!(sheet.link(), styled(Some(Color::Blue), None, false, true, false));
    assert_eq!(sheet.blockquote(), styled(Some(Color::Yellow), None, false, false, false));
    assert_eq!(sheet.heading_meta(), styled(None, None, false, false, true));
    assert_eq!(sheet.metadata_block(), styled(Some(Color::LightYellow), None, false, false, false));
}
