use zeta::tools::{
    bash_outcome, check_search_status, file_text, memory_file_content, missing_memory_reply, search_pattern,
    search_result, BashOutput,
};

#[test]
fn search_pattern_joins_alternatives() {
    assert_eq!(search_pattern(&vec!["rust".to_string(), "verus".to_string()]), "rust|verus");
    assert_eq!(search_pattern(&vec!["one".to_string()]), "one");
    assert_eq!(search_pattern(&vec![]), "");
}

#[test]
fn search_result_lists_output_lines() {
    assert_eq!(search_result(b"notes.txt\ntodo.md\n").matches, vec!["notes.txt".to_string(), "todo.md".to_string()]);
    assert!(search_result(b"").matches.is_empty());
    assert_eq!(search_result(b"bad\xffname\n").matches, vec!["bad\u{FFFD}name".to_string()]);
}

#[test]
fn missing_memory_reply_only_when_unreadable() {
    let msg = "Memory file is empty or does not exist yet.".to_string();
    assert_eq!(missing_memory_reply(false, false), Some(msg.clone()));
    assert_eq!(missing_memory_reply(true, false), Some(msg.clone()));
    assert_eq!(missing_memory_reply(false, true), Some(msg));
    assert_eq!(missing_memory_reply(true, true), None);
}

#[test]
fn memory_content_idempotent_law() {
    assert_eq!(memory_file_content("x".to_string()), "x\n");
    assert_eq!(memory_file_content("x\n".to_string()), "x\n");
    assert_eq!(memory_file_content(String::new()), "\n");
    let once = memory_file_content("note".to_string());
    assert_eq!(memory_file_content(once.clone()), once);
}

#[test]
fn file_text_replaces_invalid_bytes() {
    assert_eq!(file_text(b"hi\xff"), "hi\u{FFFD}");
    assert_eq!(file_text("añ".as_bytes()), "añ");
    assert_eq!(file_text(b""), "");
}

#[test]
fn bash_outcome_success_and_failure() {
    assert_eq!(
        bash_outcome(true, Some(0), b"out", b"err"),
        Ok(BashOutput { stdout: "out".to_string(), stderr: "err".to_string(), exit_code: 0 })
    );
    assert_eq!(bash_outcome(true, None, b"", b"").unwrap().exit_code, -1);
    assert_eq!(bash_outcome(false, Some(1), b"ignored", b"boom"), Err("boom".to_string()));
}

#[test]
fn search_status_success_range() {
    assert_eq!(check_search_status(200, "200 OK"), Ok(()));
    assert_eq!(check_search_status(299, "299"), Ok(()));
    assert_eq!(check_search_status(404, "404 Not Found"), Err("Server returned error code: 404 Not Found".to_string()));
    assert!(check_search_status(199, "199").is_err());
    assert!(check_search_status(300, "300 Multiple Choices").is_err());
}
