use zeta::agent::{AgentEvent, ArgValue, ToolCall};
use zeta::render::{
    clean_input, cli_output, construct_system_prompt, to_str_arguments, tool_result_block, tui_output,
    Output, TermColor,
};

fn entry(k: &str, v: ArgValue) -> (String, ArgValue) {
    (k.to_string(), v)
}

#[test]
fn to_str_arguments_sorts_by_key() {
    let args = vec![
        entry("b", ArgValue::Text("two".to_string())),
        entry("a", ArgValue::Json("1".to_string())),
    ];
    assert_eq!(to_str_arguments(&args), "(a: 1), (b: two)");
}

#[test]
fn to_str_arguments_empty_and_single() {
    assert_eq!(to_str_arguments(&vec![]), "");
    let args = vec![entry("file_path", ArgValue::Text("/tmp/x".to_string()))];
    assert_eq!(to_str_arguments(&args), "(file_path: /tmp/x)");
}

#[test]
fn to_str_arguments_orders_like_string() {
    let args = vec![
        entry("é", ArgValue::Json("true".to_string())),
        entry("z", ArgValue::Json("null".to_string())),
        entry("B", ArgValue::Json("[1,2]".to_string())),
        entry("a", ArgValue::Text("x".to_string())),
        entry("ab", ArgValue::Text("y".to_string())),
    ];
    assert_eq!(to_str_arguments(&args), "(B: [1,2]), (a: x), (ab: y), (z: null), (é: true)");
}

#[test]
fn arguments_sorted_law() {
    let args = vec![
        entry("k3", ArgValue::Text("c".to_string())),
        entry("k1", ArgValue::Text("a".to_string())),
        entry("k2", ArgValue::Text("b".to_string())),
        entry("k1", ArgValue::Text("second".to_string())),
    ];
    // Stable: of two equal keys the earlier stays first; nothing is lost.
    assert_eq!(to_str_arguments(&args), "(k1: a), (k1: second), (k2: b), (k3: c)");
}

fn tool_call() -> AgentEvent {
    AgentEvent::ToolCall(ToolCall {
        name: "read_file".to_string(),
        arguments: "{\"file_path\":\"/tmp/x\"}".to_string(),
        entries: Some(vec![entry("file_path", ArgValue::Text("/tmp/x".to_string()))]),
    })
}

fn out(text: &str, color: Option<TermColor>, to_stderr: bool) -> Output {
    Output { text: text.to_string(), color, to_stderr }
}

#[test]
fn cli_output_for_each_event() {
    assert_eq!(cli_output(&AgentEvent::Token("hi".to_string())), out("hi", None, false));
    assert_eq!(cli_output(&tool_call()), out("\n[+] ReadFile (file_path: /tmp/x)\n", Some(TermColor::DarkCyan), false));
    assert_eq!(cli_output(&AgentEvent::ToolCallDone), out("", None, false));
    assert_eq!(cli_output(&AgentEvent::Done), out("\n>>> ", None, false));
    assert_eq!(cli_output(&AgentEvent::Error("bad".to_string())), out("\n[error] bad\n\n", Some(TermColor::Red), true));
}

#[test]
fn tui_output_for_each_event() {
    assert_eq!(tui_output(&AgentEvent::Token("hi".to_string())), out("hi", None, false));
    assert_eq!(tui_output(&tool_call()), out("\n[+] ReadFile (file_path: /tmp/x)\n", Some(TermColor::DarkCyan), false));
    assert_eq!(tui_output(&AgentEvent::Done), out("\n>>> ", None, false));
    assert_eq!(tui_output(&AgentEvent::Error("bad".to_string())), out("\n[error] bad\n", Some(TermColor::Red), false));
}

#[test]
fn tool_result_block_cuts_and_indents() {
    assert_eq!(tool_result_block("line1\nline2", 800), "      line1\n      line2");
    assert_eq!(tool_result_block("abcdef", 3), "      abc\n            ... [truncated]");
}

#[test]
fn system_prompt_names_directory() {
    assert_eq!(construct_system_prompt("You are zeta.", "/home/u"), "You are zeta.\nCurrent directory: /home/u");
}

#[test]
fn clean_input_trims_or_asks_again() {
    assert_eq!(clean_input("  hello \n"), Some("hello".to_string()));
    assert_eq!(clean_input(" \t\n"), None);
    assert_eq!(clean_input(""), None);
}
