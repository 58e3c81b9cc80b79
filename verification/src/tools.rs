use vstd::prelude::*;
use crate::text::{join, lines, lines_of, lossy_text, utf8_lossy};

verus! {

/// `std::io::Error`, carried through the tools' error types.
#[verifier::external_type_specification]
#[verifier::external_body]
pub struct ExIoError(std::io::Error);

/// Failure of the file-reading tool.
#[derive(Debug)]
pub enum FsError {
    Io(std::io::Error),
}

/// Failure of the memory tools.
#[derive(Debug)]
pub enum MemoryError {
    Io(std::io::Error),
    NoProjectDir,
}

/// The memory files whose names matched a search.
#[derive(Debug, Clone, PartialEq, Eq)]
pub struct SearchResult {
    pub matches: Vec<String>,
}

/// What a shell command that succeeded printed, and its exit code.
#[derive(Debug, Clone, PartialEq, Eq)]
pub struct BashOutput {
    pub stdout: String,
    pub stderr: String,
    pub exit_code: i32,
}

/// The body of a web-search request.
#[derive(Debug, Clone, PartialEq, Eq)]
pub struct TavilyRequest {
    pub query: String,
}


/// The search pattern for the memory search: the queries as alternatives,
/// joined by `|`.
pub fn search_pattern(query: &Vec<String>) -> (pattern: String)
    ensures
        pattern@ == join(query@.map_values(|q: String| q@), "|"@),
{
    let ghost v = |q: String| q@;
    let mut out = String::new();
    let mut i: usize = 0;
    while i < query.len()
        invariant
            i <= query.len(),
            v == (|q: String| q@),
            out@ == join(query@.map_values(v).take(i as int), "|"@),
        decreases query.len() - i,
    {
        if i > 0 {
            out.append("|");
        }
        out.append(query[i].as_str());
        proof {
            let m = query@.map_values(v);
            assert(m.take(i + 1).drop_last() == m.take(i as int));
            assert(m.take(i + 1).last() == query@[i as int]@);
        }
        i = i + 1;
    }
    assert(query@.map_values(v).take(i as int) == query@.map_values(v));
    out
}

/// The memory files that the file search printed, one per line of its
/// output (read as UTF-8, invalid sequences replaced).
pub fn search_result(stdout: &[u8]) -> (r: SearchResult)
    ensures
        r.matches@.map_values(|m: String| m@) == lines(utf8_lossy(stdout@)),
{
    let text = lossy_text(stdout);
    let matches = lines_of(text.as_str());
    SearchResult { matches }
}

/// The reply of the memory inspection when there is nothing to read: the
/// memory directory or the file does not exist. `None` when the file is
/// there to be read.
pub fn missing_memory_reply(dir_exists: bool, file_exists: bool) -> (r: Option<String>)
    ensures
        r is None <==> dir_exists && file_exists,
        r matches Some(text) ==> text@ == "Memory file is empty or does not exist yet."@,
{
    if !dir_exists || !file_exists {
        let mut text = String::new();
        text.append("Memory file is empty or does not exist yet.");
        Some(text)
    } else {
        None
    }
}

/// The content with a newline added unless it already ends with one.
pub open spec fn ends_with_newline(content: Seq<char>) -> Seq<char> {
    if content.len() > 0 && content.last() == '\n' {
        content
    } else {
        content.push('\n')
    }
}

/// A memory file's text always ends with a newline, and content that went
/// through this once passes unchanged the next time.
pub proof fn memory_content_idempotent(content: Seq<char>)
    ensures
        ends_with_newline(content).take(content.len() as int) == content,
        ends_with_newline(content).len() == content.len() || ends_with_newline(content).len()
            == content.len() + 1,
        content.len() > 0 && content[content.len() - 1] == '\n' ==> ends_with_newline(content)
            == content,
        ends_with_newline(content).len() > 0,
        ends_with_newline(content).last() == '\n',
        ends_with_newline(ends_with_newline(content)) == ends_with_newline(content),
{
    assert(ends_with_newline(content).take(content.len() as int) =~= content);
}

/// The text a memory file is written with: the content, with a newline
/// added unless it already ends with one.
pub fn memory_file_content(content: String) -> (out: String)
    ensures
        out@ == ends_with_newline(content@),
{
    let chars = crate::text::chars_of(content.as_str());
    if chars.len() > 0 && chars[chars.len() - 1] == '\n' {
        content
    } else {
        let mut out = content;
        crate::text::push_char(&mut out, '\n');
        out
    }
}

/// The text of a file the agent reads: its bytes as UTF-8, invalid
/// sequences replaced by U+FFFD.
pub fn file_text(bytes: &[u8]) -> (s: String)
    ensures
        s@ == utf8_lossy(bytes@),
        vstd::utf8::valid_utf8(bytes@) ==> s@ == vstd::utf8::decode_utf8(bytes@),
{
    lossy_text(bytes)
}

/// What a finished shell command gives the agent: on success its output,
/// error output and exit code (`-1` when it has none, as when a signal
/// ended it); on failure its error output, as the error.
pub fn bash_outcome(success: bool, exit_code: Option<i32>, stdout: &[u8], stderr: &[u8]) -> (r:
    Result<BashOutput, String>)
    ensures
        match r {
            Ok(out) => success && out.stdout@ == utf8_lossy(stdout@) && out.stderr@ == utf8_lossy(
                stderr@,
            ) && out.exit_code == (match exit_code {
                Some(c) => c,
                None => -1i32,
            }),
            Err(e) => !success && e@ == utf8_lossy(stderr@),
        },
{
    let err_text = lossy_text(stderr);
    if !success {
        return Err(err_text);
    }
    let out_text = lossy_text(stdout);
    let code = match exit_code {
        Some(c) => c,
        None => -1,
    };
    Ok(BashOutput { stdout: out_text, stderr: err_text, exit_code: code })
}

/// Whether an HTTP status code reports success (`200` to `299`).
pub open spec fn status_success(status_code: u16) -> bool {
    200 <= status_code <= 299
}

/// Accepts a web-search response whose status reports success; otherwise
/// the error message that names the status as `status_text` shows it.
pub fn check_search_status(status_code: u16, status_text: &str) -> (r: Result<(), String>)
    ensures
        r is Ok <==> status_success(status_code),
        r matches Err(msg) ==> msg@ == "Server returned error code: "@ + status_text@,
{
    if 200 <= status_code && status_code <= 299 {
        Ok(())
    } else {
        let mut msg = String::new();
        msg.append("Server returned error code: ");
        msg.append(status_text);
        Err(msg)
    }
}

} // verus!
