use vstd::prelude::*;
use crate::agent::{AgentEvent, ArgValue};
use crate::text::{
    chars_of, indent, indented, join, pascal_case, push_chars, to_pascal_case, trim, trimmed,
    truncate, truncated,
};

verus! {

/// Whether the text `a` comes no later than `b` in the order of `String`:
/// lexicographic by characters (the order of their UTF-8 bytes).
pub open spec fn text_le(a: Seq<char>, b: Seq<char>) -> bool
    decreases a.len(),
{
    if a.len() == 0 {
        true
    } else if b.len() == 0 {
        false
    } else if a[0] != b[0] {
        (a[0] as int) < (b[0] as int)
    } else {
        text_le(a.drop_first(), b.drop_first())
    }
}

/// An argument's key and the text shown for its value.
pub type ArgText = (Seq<char>, Seq<char>);

/// The text shown for an argument value: a string's own text, otherwise the
/// value's JSON text.
pub open spec fn arg_value_text(v: ArgValue) -> Seq<char> {
    match v {
        ArgValue::Text(s) => s@,
        ArgValue::Json(j) => j@,
    }
}

/// The keys and value texts of the entries.
pub open spec fn arg_texts(entries: Seq<(String, ArgValue)>) -> Seq<ArgText> {
    entries.map_values(|e: (String, ArgValue)| (e.0@, arg_value_text(e.1)))
}

/// `x` put into the key-sorted `sorted` after every entry whose key is not
/// greater than its own.
pub open spec fn insert_by_key(sorted: Seq<ArgText>, x: ArgText) -> Seq<ArgText>
    decreases sorted.len(),
{
    if sorted.len() == 0 {
        seq![x]
    } else if text_le(sorted.last().0, x.0) {
        sorted.push(x)
    } else {
        insert_by_key(sorted.drop_last(), x).push(sorted.last())
    }
}

/// The entries stably sorted by key.
pub open spec fn sort_by_key(entries: Seq<ArgText>) -> Seq<ArgText>
    decreases entries.len(),
{
    if entries.len() == 0 {
        Seq::empty()
    } else {
        insert_by_key(sort_by_key(entries.drop_last()), entries.last())
    }
}

/// How one argument is shown: `(key: value)`.
pub open spec fn arg_shown(a: ArgText) -> Seq<char> {
    "("@ + a.0 + ": "@ + a.1 + ")"@
}

/// The arguments sorted by key, each shown as `(key: value)`, joined by `, `.
pub open spec fn arguments_shown(entries: Seq<(String, ArgValue)>) -> Seq<char> {
    join(sort_by_key(arg_texts(entries)).map_values(|a: ArgText| arg_shown(a)), ", "@)
}

fn le_chars(a: &Vec<char>, b: &Vec<char>) -> (r: bool)
    ensures
        r == text_le(a@, b@),
{
    let mut i: usize = 0;
    assert(a@.skip(0) == a@ && b@.skip(0) == b@);
    while i < a.len() && i < b.len() && a[i] == b[i]
        invariant
            i <= a.len(),
            i <= b.len(),
            text_le(a@, b@) == text_le(a@.skip(i as int), b@.skip(i as int)),
        decreases a.len() - i,
    {
        assert(a@.skip(i as int).drop_first() == a@.skip(i + 1));
        assert(b@.skip(i as int).drop_first() == b@.skip(i + 1));
        i = i + 1;
    }
    let ghost sa = a@.skip(i as int);
    let ghost sb = b@.skip(i as int);
    assert(sa.len() == a.len() - i && sb.len() == b.len() - i);
    if i < a.len() && i < b.len() {
        assert(sa[0] == a@[i as int] && sb[0] == b@[i as int]);
    }
    if i == a.len() {
        true
    } else if i == b.len() {
        false
    } else {
        a[i] < b[i]
    }
}

/// Places `x` into the key-sorted `sorted` exactly as `insert_by_key` does.
proof fn lemma_insert_at(sorted: Seq<ArgText>, x: ArgText, j: int)
    requires
        0 <= j <= sorted.len(),
        j == 0 || text_le(sorted[j - 1].0, x.0),
        forall|k: int| j <= k < sorted.len() ==> !text_le(#[trigger] sorted[k].0, x.0),
    ensures
        insert_by_key(sorted, x) == sorted.insert(j, x),
    decreases sorted.len(),
{
    if sorted.len() == 0 {
        assert(sorted.insert(0, x) == seq![x]);
    } else if j == sorted.len() {
        assert(sorted.insert(j, x) == sorted.push(x));
    } else {
        let last = sorted.last();
        assert(!text_le(sorted[sorted.len() - 1].0, x.0));
        lemma_insert_at(sorted.drop_last(), x, j);
        assert(sorted.insert(j, x) == sorted.drop_last().insert(j, x).push(last));
    }
}

/// Shows the arguments of a tool call: sorted by key, each as
/// `(key: value)`, separated by `, `.
pub fn to_str_arguments(args: &Vec<(String, ArgValue)>) -> (out: String)
    ensures
        out@ == arguments_shown(args@),
{
    let ghost texts = arg_texts(args@);
    let ghost view = |p: (Vec<char>, Vec<char>)| (p.0@, p.1@);
    let mut sorted: Vec<(Vec<char>, Vec<char>)> = Vec::new();
    let mut i: usize = 0;
    while i < args.len()
        invariant
            i <= args.len(),
            texts == arg_texts(args@),
            view == (|p: (Vec<char>, Vec<char>)| (p.0@, p.1@)),
            sorted@.map_values(view) == sort_by_key(texts.take(i as int)),
        decreases args.len() - i,
    {
        let key = chars_of(args[i].0.as_str());
        let value = match &args[i].1 {
            ArgValue::Text(s) => chars_of(s.as_str()),
            ArgValue::Json(j) => chars_of(j.as_str()),
        };
        let ghost x = (key@, value@);
        assert(x == texts[i as int]);
        let mut j: usize = sorted.len();
        while j > 0 && !le_chars(&sorted[j - 1].0, &key)
            invariant
                j <= sorted@.len(),
                key@ == x.0,
                forall|k: int|
                    j <= k < sorted@.len() ==> !text_le(#[trigger] sorted@[k].0@, x.0),
            decreases j,
        {
            j = j - 1;
        }
        let ghost before = sorted@.map_values(view);
        proof {
            assert forall|k: int| j <= k < before.len() implies !text_le(
                #[trigger] before[k].0,
                x.0,
            ) by {
                assert(before[k] == view(sorted@[k]));
            }
            if j > 0 {
                assert(before[j - 1] == view(sorted@[j - 1]));
            }
            lemma_insert_at(before, x, j as int);
            assert(texts.take(i + 1).drop_last() == texts.take(i as int));
        }
        sorted.insert(j, (key, value));
        assert(sorted@.map_values(view) == before.insert(j as int, x));
        i = i + 1;
    }
    assert(texts.take(i as int) == texts);
    let ghost shown = sort_by_key(texts).map_values(|a: ArgText| arg_shown(a));
    let mut out = String::new();
    let mut k: usize = 0;
    while k < sorted.len()
        invariant
            k <= sorted@.len(),
            view == (|p: (Vec<char>, Vec<char>)| (p.0@, p.1@)),
            sorted@.map_values(view) == sort_by_key(texts),
            shown == sort_by_key(texts).map_values(|a: ArgText| arg_shown(a)),
            out@ == join(shown.take(k as int), ", "@),
        decreases sorted.len() - k,
    {
        if k > 0 {
            out.append(", ");
        }
        out.append("(");
        push_chars(&mut out, &sorted[k].0);
        out.append(": ");
        push_chars(&mut out, &sorted[k].1);
        out.append(")");
        proof {
            assert(view(sorted@[k as int]) == sort_by_key(texts)[k as int]);
            assert(shown.take(k + 1).drop_last() == shown.take(k as int));
        }
        k = k + 1;
    }
    assert(shown.take(k as int) == shown);
    out
}


/// The colour a piece of terminal output is written in.
#[derive(Debug, Clone, Copy, PartialEq, Eq)]
pub enum TermColor {
    DarkCyan,
    DarkGrey,
    Red,
}

/// Text to write to the terminal, in a colour (reset after it) or in the
/// default colour, to standard output or standard error.
#[derive(Debug, Clone, PartialEq, Eq)]
pub struct Output {
    pub text: String,
    pub color: Option<TermColor>,
    pub to_stderr: bool,
}

/// The line that announces a tool call: `\n[+] ToolName (key: value), ...`.
pub open spec fn tool_call_shown(name: Seq<char>, entries: Seq<(String, ArgValue)>) -> Seq<char> {
    "\n[+] "@ + pascal_case(name) + " "@ + arguments_shown(entries)
}

/// Whether the event can be shown: a tool call's arguments must form a JSON
/// object.
pub open spec fn showable(event: &AgentEvent) -> bool {
    event matches AgentEvent::ToolCall(c) ==> c.entries is Some
}

fn tool_call_text(name: &String, entries: &Vec<(String, ArgValue)>) -> (out: String)
    ensures
        out@ == tool_call_shown(name@, entries@),
{
    let mut out = String::new();
    out.append("\n[+] ");
    let shown_name = to_pascal_case(name.as_str());
    out.append(shown_name.as_str());
    out.append(" ");
    let args = to_str_arguments(entries);
    out.append(args.as_str());
    out
}

/// What the line-mode interface writes for an event.
pub open spec fn cli_shown(event: &AgentEvent) -> (Seq<char>, Option<TermColor>, bool) {
    match event {
        AgentEvent::Token(t) => (t@, None, false),
        AgentEvent::ToolCall(c) => (
            tool_call_shown(c.name@, c.entries.unwrap()@) + "\n"@,
            Some(TermColor::DarkCyan),
            false,
        ),
        AgentEvent::ToolCallDone => (Seq::empty(), None, false),
        AgentEvent::Done => ("\n>>> "@, None, false),
        AgentEvent::Error(e) => ("\n[error] "@ + e@ + "\n"@ + "\n"@, Some(TermColor::Red), true),
    }
}

/// What the full-screen line interface writes for an event.
pub open spec fn tui_shown(event: &AgentEvent) -> (Seq<char>, Option<TermColor>, bool) {
    match event {
        AgentEvent::Token(t) => (t@, None, false),
        AgentEvent::ToolCall(c) => (
            tool_call_shown(c.name@, c.entries.unwrap()@) + "\n"@,
            Some(TermColor::DarkCyan),
            false,
        ),
        AgentEvent::ToolCallDone => (Seq::empty(), None, false),
        AgentEvent::Done => ("\n>>> "@, None, false),
        AgentEvent::Error(e) => ("\n[error] "@ + e@ + "\n"@, Some(TermColor::Red), false),
    }
}

/// The output of a rendering, as text, colour and stream.
pub open spec fn output_shown(o: Output) -> (Seq<char>, Option<TermColor>, bool) {
    (o.text@, o.color, o.to_stderr)
}

/// How the line-mode interface shows an agent event: streamed text as it
/// comes, a tool call in dark cyan, an error in red on standard error, and a
/// new prompt when the answer is done.
pub fn cli_output(event: &AgentEvent) -> (o: Output)
    requires
        showable(event),
    ensures
        output_shown(o) == cli_shown(event),
{
    match event {
        AgentEvent::Token(t) => Output { text: t.clone(), color: None, to_stderr: false },
        AgentEvent::ToolCall(c) => {
            let mut text = match &c.entries {
                Some(entries) => tool_call_text(&c.name, entries),
                None => String::new(),
            };
            text.append("\n");
            Output { text, color: Some(TermColor::DarkCyan), to_stderr: false }
        },
        AgentEvent::ToolCallDone => Output { text: String::new(), color: None, to_stderr: false },
        AgentEvent::Done => {
            let mut text = String::new();
            text.append("\n>>> ");
            Output { text, color: None, to_stderr: false }
        },
        AgentEvent::Error(e) => {
            let mut text = String::new();
            text.append("\n[error] ");
            text.append(e.as_str());
            text.append("\n");
            text.append("\n");
            Output { text, color: Some(TermColor::Red), to_stderr: true }
        },
    }
}

/// How the full-screen line interface shows an agent event: like the line
/// mode, but an error goes to standard output followed by one newline.
pub fn tui_output(event: &AgentEvent) -> (o: Output)
    requires
        showable(event),
    ensures
        output_shown(o) == tui_shown(event),
{
    match event {
        AgentEvent::Error(e) => {
            let mut text = String::new();
            text.append("\n[error] ");
            text.append(e.as_str());
            text.append("\n");
            Output { text, color: Some(TermColor::Red), to_stderr: false }
        },
        _ => cli_output(event),
    }
}

/// A tool's result as the interfaces show it: cut to `max_chars` characters
/// and indented by six spaces.
pub fn tool_result_block(content: &str, max_chars: usize) -> (out: String)
    ensures
        out@ == indented(truncated(content@, max_chars as nat), 6),
{
    let cut = truncate(content, max_chars);
    indent(cut.as_str(), 6)
}

/// The system prompt: the preamble, then a line naming the working directory.
pub fn construct_system_prompt(preamble: &str, current_dir: &str) -> (out: String)
    ensures
        out@ == preamble@ + "\nCurrent directory: "@ + current_dir@,
{
    let mut out = String::new();
    out.append(preamble);
    out.append("\nCurrent directory: ");
    out.append(current_dir);
    out
}

/// A line the user typed, without surrounding whitespace; `None` when
/// nothing is left, which asks for a new prompt instead of a message.
pub fn clean_input(input: &str) -> (r: Option<String>)
    ensures
        match r {
            Some(text) => text@ == trimmed(input@) && text@.len() > 0,
            None => trimmed(input@).len() == 0,
        },
{
    let text = trim(input);
    if text.as_str().is_empty() {
        None
    } else {
        Some(text)
    }
}


proof fn lemma_text_le_total(a: Seq<char>, b: Seq<char>)
    ensures
        text_le(a, b) || text_le(b, a),
    decreases a.len(),
{
    if a.len() > 0 && b.len() > 0 {
        if a[0] == b[0] {
            lemma_text_le_total(a.drop_first(), b.drop_first());
        } else {
            assert((a[0] as int) != (b[0] as int));
        }
    }
}

proof fn lemma_text_le_transitive(a: Seq<char>, b: Seq<char>, c: Seq<char>)
    requires
        text_le(a, b),
        text_le(b, c),
    ensures
        text_le(a, c),
    decreases a.len(),
{
    if a.len() > 0 && b.len() > 0 && c.len() > 0 && a[0] == b[0] && b[0] == c[0] {
        lemma_text_le_transitive(a.drop_first(), b.drop_first(), c.drop_first());
    }
}

/// Whether the entries are in order of their keys.
pub open spec fn sorted_by_key(s: Seq<ArgText>) -> bool {
    forall|i: int, j: int| 0 <= i < j < s.len() ==> text_le(#[trigger] s[i].0, #[trigger] s[j].0)
}

proof fn lemma_insert_by_key(sorted: Seq<ArgText>, x: ArgText)
    requires
        sorted_by_key(sorted),
    ensures
        sorted_by_key(insert_by_key(sorted, x)),
        insert_by_key(sorted, x).to_multiset() == sorted.to_multiset().insert(x),
        forall|k: int|
            0 <= k < insert_by_key(sorted, x).len() ==> #[trigger] insert_by_key(sorted, x)[k]
                == x || sorted.contains(insert_by_key(sorted, x)[k]),
    decreases sorted.len(),
{
    broadcast use vstd::seq_lib::group_to_multiset_ensures;

    let r = insert_by_key(sorted, x);
    if sorted.len() == 0 {
        assert(Seq::<ArgText>::empty().push(x) == seq![x]);
    } else if text_le(sorted.last().0, x.0) {
        assert forall|i: int, j: int| 0 <= i < j < r.len() implies text_le(
            #[trigger] r[i].0,
            #[trigger] r[j].0,
        ) by {
            if j == r.len() - 1 && i < sorted.len() - 1 {
                lemma_text_le_transitive(sorted[i].0, sorted.last().0, x.0);
            }
        }
        assert forall|k: int| 0 <= k < r.len() implies #[trigger] r[k] == x || sorted.contains(
            r[k],
        ) by {
            if k < sorted.len() {
                assert(sorted[k] == r[k]);
            }
        }
    } else {
        let init = sorted.drop_last();
        let last = sorted.last();
        lemma_text_le_total(last.0, x.0);
        assert(sorted_by_key(init));
        lemma_insert_by_key(init, x);
        let inner = insert_by_key(init, x);
        assert(sorted == init.push(last));
        assert forall|k: int| 0 <= k < inner.len() implies text_le(#[trigger] inner[k].0, last.0) by {
            if inner[k] != x {
                let m = choose|m: int| 0 <= m < init.len() && init[m] == inner[k];
                assert(sorted[m] == init[m]);
            }
        }
        assert forall|i: int, j: int| 0 <= i < j < r.len() implies text_le(
            #[trigger] r[i].0,
            #[trigger] r[j].0,
        ) by {
            if j == r.len() - 1 {
                assert(r[i] == inner[i]);
            } else {
                assert(r[i] == inner[i] && r[j] == inner[j]);
            }
        }
        assert forall|k: int| 0 <= k < r.len() implies #[trigger] r[k] == x || sorted.contains(
            r[k],
        ) by {
            if k == r.len() - 1 {
                assert(sorted[sorted.len() - 1] == r[k]);
            } else {
                assert(r[k] == inner[k]);
                if inner[k] != x {
                    let m = choose|m: int| 0 <= m < init.len() && init[m] == inner[k];
                    assert(sorted[m] == init[m]);
                }
            }
        }
        assert(init.to_multiset().insert(x).insert(last) == init.to_multiset().insert(last).insert(x));
    }
}

/// The arguments a tool call shows are in the order of their keys, and
/// they are the call's arguments, each once: sorting keeps every entry and
/// adds none.
pub proof fn arguments_sorted(entries: Seq<ArgText>)
    ensures
        sorted_by_key(sort_by_key(entries)),
        sort_by_key(entries).to_multiset() == entries.to_multiset(),
    decreases entries.len(),
{
    broadcast use vstd::seq_lib::group_to_multiset_ensures;

    if entries.len() > 0 {
        arguments_sorted(entries.drop_last());
        lemma_insert_by_key(sort_by_key(entries.drop_last()), entries.last());
        assert(entries.drop_last().push(entries.last()) == entries);
    } else {
        assert(sort_by_key(entries) == Seq::<ArgText>::empty());
    }
}


/// Whether `a` comes first because at the first position where `a` and `b`
/// differ, `a` has the smaller character.
pub open spec fn differs_smaller_at(a: Seq<char>, b: Seq<char>, i: int) -> bool {
    0 <= i < a.len() && i < b.len() && a.take(i) == b.take(i) && (a[i] as int) < (b[i] as int)
}

/// The order of keys is the order of `String`, lexicographic from the first
/// character: `a` comes no later than `b` exactly when `a` is a prefix of
/// `b`, or when at the first position where they differ `a` has the
/// smaller character.
pub proof fn key_order_is_lexicographic(a: Seq<char>, b: Seq<char>)
    ensures
        text_le(a, b) <==> ((a.len() <= b.len() && b.take(a.len() as int) == a) || exists|i: int|
            #[trigger] differs_smaller_at(a, b, i)),
    decreases a.len(),
{
    if a.len() == 0 {
        assert(b.take(0) =~= a);
    } else if b.len() == 0 {
        assert(!exists|i: int| #[trigger] differs_smaller_at(a, b, i));
    } else if a[0] != b[0] {
        if a.len() <= b.len() && b.take(a.len() as int) == a {
            assert(b.take(a.len() as int)[0] == b[0]);
        }
        if (a[0] as int) < (b[0] as int) {
            assert(a.take(0) =~= b.take(0));
            assert(differs_smaller_at(a, b, 0));
        } else {
            assert forall|i: int| !#[trigger] differs_smaller_at(a, b, i) by {
                if 0 < i && differs_smaller_at(a, b, i) {
                    assert(a.take(i)[0] == b.take(i)[0]);
                }
            }
        }
    } else {
        let a1 = a.drop_first();
        let b1 = b.drop_first();
        key_order_is_lexicographic(a1, b1);
        // Prefixes correspond.
        if a.len() <= b.len() && b.take(a.len() as int) == a {
            assert(b1.take(a1.len() as int) =~= a1);
        }
        if a1.len() <= b1.len() && b1.take(a1.len() as int) == a1 {
            assert forall|k: int| 0 <= k < a.len() implies #[trigger] b.take(a.len() as int)[k]
                == a[k] by {
                if k > 0 {
                    assert(b1.take(a1.len() as int)[k - 1] == a1[k - 1]);
                }
            }
            assert(b.take(a.len() as int) =~= a);
        }
        // Differing positions correspond, shifted by one.
        if exists|i: int| #[trigger] differs_smaller_at(a1, b1, i) {
            let i = choose|i: int| #[trigger] differs_smaller_at(a1, b1, i);
            assert(a.take(i + 1) =~= seq![a[0]] + a1.take(i));
            assert(b.take(i + 1) =~= seq![b[0]] + b1.take(i));
            assert(differs_smaller_at(a, b, i + 1));
        }
        if exists|i: int| #[trigger] differs_smaller_at(a, b, i) {
            let i = choose|i: int| #[trigger] differs_smaller_at(a, b, i);
            assert(i > 0);
            assert(a1.take(i - 1) =~= a.take(i).drop_first());
            assert(b1.take(i - 1) =~= b.take(i).drop_first());
            assert(differs_smaller_at(a1, b1, i - 1));
        }
    }
}

} // verus!
