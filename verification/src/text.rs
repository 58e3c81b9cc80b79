use vstd::prelude::*;

verus! {

/// Appends one character to a string (`String::push`).
#[verifier::external_body]
pub(crate) fn push_char(s: &mut String, c: char)
    ensures
        final(s)@ == old(s)@.push(c),
{
    s.push(c);
}

/// The characters of `s`, in order.
pub fn chars_of(s: &str) -> (v: Vec<char>)
    ensures
        v@ == s@,
{
    let mut v: Vec<char> = Vec::new();
    for c in it: s.chars()
        invariant
            v@ == it.seq().take(it.index()),
    {
        v.push(c);
    }
    v
}


/// The string made of the characters `v`.
pub fn string_of(v: &Vec<char>) -> (s: String)
    ensures
        s@ == v@,
{
    let mut s = String::new();
    let mut i: usize = 0;
    while i < v.len()
        invariant
            i <= v.len(),
            s@ == v@.take(i as int),
        decreases v.len() - i,
    {
        push_char(&mut s, v[i]);
        i = i + 1;
        assert(s@ == v@.take(i as int));
    }
    assert(v@.take(i as int) == v@);
    s
}

/// What `truncate` appends after the characters it keeps.
pub open spec fn truncation_marker() -> Seq<char> {
    "\n      ... [truncated]"@
}

/// `s` when it has at most `max_chars` characters; otherwise its first
/// `max_chars` characters followed by the truncation marker.
pub open spec fn truncated(s: Seq<char>, max_chars: nat) -> Seq<char> {
    if s.len() <= max_chars {
        s
    } else {
        s.take(max_chars as int) + truncation_marker()
    }
}

/// Shortens `s` to at most `max_chars` characters, marking the cut.
pub fn truncate(s: &str, max_chars: usize) -> (out: String)
    ensures
        out@ == truncated(s@, max_chars as nat),
{
    let chars = chars_of(s);
    if chars.len() <= max_chars {
        return s.to_owned();
    }
    let mut kept: Vec<char> = Vec::new();
    let mut i: usize = 0;
    while i < max_chars
        invariant
            max_chars < chars.len(),
            i <= max_chars,
            kept@ == chars@.take(i as int),
        decreases max_chars - i,
    {
        kept.push(chars[i]);
        i = i + 1;
        assert(kept@ == chars@.take(i as int));
    }
    let mut out = string_of(&kept);
    out.append("\n      ... [truncated]");
    out
}


/// Appends the characters `v` to `out`.
pub fn push_chars(out: &mut String, v: &Vec<char>)
    ensures
        final(out)@ == old(out)@ + v@,
{
    let mut i: usize = 0;
    while i < v.len()
        invariant
            i <= v.len(),
            out@ == old(out)@ + v@.take(i as int),
        decreases v.len() - i,
    {
        push_char(out, v[i]);
        i = i + 1;
        assert(out@ == old(out)@ + v@.take(i as int));
    }
    assert(v@.take(i as int) == v@);
}

/// `n` space characters.
pub open spec fn spaces(n: nat) -> Seq<char> {
    Seq::new(n, |i: int| ' ')
}

/// The parts joined with `sep` between each two neighbours.
pub open spec fn join(parts: Seq<Seq<char>>, sep: Seq<char>) -> Seq<char>
    decreases parts.len(),
{
    if parts.len() == 0 {
        Seq::empty()
    } else if parts.len() == 1 {
        parts[0]
    } else {
        join(parts.drop_last(), sep) + sep + parts.last()
    }
}

/// Splits `s` at its newline characters: the pieces that a newline ends
/// (without that newline), and the piece after the last newline.
pub open spec fn line_parts(s: Seq<char>) -> (Seq<Seq<char>>, Seq<char>)
    decreases s.len(),
{
    if s.len() == 0 {
        (Seq::empty(), Seq::empty())
    } else {
        let (done, tail) = line_parts(s.drop_last());
        if s.last() == '\n' {
            (done.push(tail), Seq::empty())
        } else {
            (done, tail.push(s.last()))
        }
    }
}

/// A piece that a newline ended, without a carriage return just before
/// that newline.
pub open spec fn strip_cr(line: Seq<char>) -> Seq<char> {
    if line.len() > 0 && line.last() == '\r' {
        line.drop_last()
    } else {
        line
    }
}

/// The lines of `s` as `str::lines` yields them: split at `\n` or `\r\n`,
/// without the line endings; a final line ending opens no empty line, and a
/// final piece with no line ending keeps a trailing `\r`.
pub open spec fn lines(s: Seq<char>) -> Seq<Seq<char>> {
    let (done, tail) = line_parts(s);
    done.map_values(|l: Seq<char>| strip_cr(l)) + if tail.len() == 0 {
        Seq::<Seq<char>>::empty()
    } else {
        seq![tail]
    }
}

/// Each line of `s` with `n` spaces before it, joined with `\n`.
pub open spec fn indented(s: Seq<char>, n: nat) -> Seq<char> {
    join(lines(s).map_values(|l: Seq<char>| spaces(n) + l), "\n"@)
}

/// The characters of `v` without a final `\r`.
fn without_final_cr(v: &Vec<char>) -> (out: Vec<char>)
    ensures
        out@ == strip_cr(v@),
{
    let mut out = v.clone();
    if out.len() > 0 && out[out.len() - 1] == '\r' {
        out.pop();
        assert(out@ == v@.drop_last());
    }
    out
}

/// Prefixes every line of `s` with `spaces` spaces and joins the lines with
/// newlines.
pub fn indent(s: &str, spaces_count: usize) -> (out: String)
    ensures
        out@ == indented(s@, spaces_count as nat),
{
    let chars = chars_of(s);
    let mut pad: Vec<char> = Vec::new();
    let mut k: usize = 0;
    while k < spaces_count
        invariant
            k <= spaces_count,
            pad@ == spaces(k as nat),
        decreases spaces_count - k,
    {
        pad.push(' ');
        k = k + 1;
        assert(pad@ == spaces(k as nat));
    }
    let ghost f = |l: Seq<char>| spaces(spaces_count as nat) + l;
    let ghost g = |l: Seq<char>| strip_cr(l);
    let mut out = String::new();
    let mut cur: Vec<char> = Vec::new();
    let ghost mut done: Seq<Seq<char>> = Seq::empty();
    let mut any_line = false;
    let mut i: usize = 0;
    while i < chars.len()
        invariant
            i <= chars.len(),
            pad@ == spaces(spaces_count as nat),
            f == (|l: Seq<char>| spaces(spaces_count as nat) + l),
            g == (|l: Seq<char>| strip_cr(l)),
            line_parts(chars@.take(i as int)) == (done, cur@),
            any_line == (done.len() > 0),
            out@ == join(done.map_values(g).map_values(f), "\n"@),
        decreases chars.len() - i,
    {
        let c = chars[i];
        assert(chars@.take(i + 1).drop_last() == chars@.take(i as int));
        if c == '\n' {
            let line = without_final_cr(&cur);
            let ghost old_parts = done.map_values(g).map_values(f);
            if any_line {
                out.append("\n");
            }
            push_chars(&mut out, &pad);
            push_chars(&mut out, &line);
            proof {
                let new_done = done.push(cur@);
                assert(new_done.map_values(g).map_values(f) == old_parts.push(f(g(cur@))));
                assert(old_parts.push(f(g(cur@))).drop_last() == old_parts);
                done = new_done;
            }
            cur = Vec::new();
            any_line = true;
        } else {
            cur.push(c);
        }
        i = i + 1;
    }
    assert(chars@.take(i as int) == s@);
    if cur.len() > 0 {
        let ghost old_parts = done.map_values(g).map_values(f);
        if any_line {
            out.append("\n");
        }
        push_chars(&mut out, &pad);
        push_chars(&mut out, &cur);
        proof {
            assert(old_parts.push(f(cur@)).drop_last() == old_parts);
            assert(lines(s@).map_values(f) == old_parts.push(f(cur@)));
        }
    } else {
        assert(lines(s@).map_values(f) == done.map_values(g).map_values(f));
    }
    out
}


/// Whether `char::is_alphanumeric` holds of `c` (Unicode Alphabetic or
/// Numeric).
pub uninterp spec fn char_alphanumeric(c: char) -> bool;

/// What `char::to_uppercase` yields for `c`: one or more characters.
pub uninterp spec fn char_uppercase(c: char) -> Seq<char>;

/// What `str::to_lowercase` returns for `s`.
pub uninterp spec fn str_lowercase(s: Seq<char>) -> Seq<char>;

/// An ASCII letter or digit.
pub open spec fn ascii_alphanumeric(c: char) -> bool {
    ('0' <= c && c <= '9') || ('a' <= c && c <= 'z') || ('A' <= c && c <= 'Z')
}

/// The ASCII upper-case form of `c` (other characters unchanged).
pub open spec fn ascii_upper(c: char) -> char {
    if 'a' <= c && c <= 'z' {
        ((c as u32) - 32) as char
    } else {
        c
    }
}

/// The ASCII lower-case form of `c` (other characters unchanged).
pub open spec fn ascii_lower(c: char) -> char {
    if 'A' <= c && c <= 'Z' {
        ((c as u32) + 32) as char
    } else {
        c
    }
}

/// Whether every character of `s` is ASCII.
pub open spec fn all_ascii(s: Seq<char>) -> bool {
    forall|i: int| 0 <= i < s.len() ==> (s[i] as u32) < 128
}

/// `char::is_alphanumeric`: true for the characters that have the Unicode
/// Alphabetic or Numeric property; on ASCII, exactly the letters and digits.
#[verifier::external_body]
fn is_alphanumeric(c: char) -> (b: bool)
    ensures
        b == char_alphanumeric(c),
        (c as u32) < 128 ==> (b <==> ascii_alphanumeric(c)),
{
    c.is_alphanumeric()
}

/// `char::to_uppercase`, collected: the upper-case mapping of `c`, which is
/// `c` itself when it has none; on ASCII, the single ASCII upper-case
/// character.
#[verifier::external_body]
fn uppercase_of(c: char) -> (s: String)
    ensures
        s@ == char_uppercase(c),
        (c as u32) < 128 ==> s@ == seq![ascii_upper(c)],
{
    c.to_uppercase().collect()
}

/// `str::to_lowercase`: the lower-case mapping of `s`; on an all-ASCII
/// string, each character mapped to its ASCII lower-case form.
#[verifier::external_body]
fn lowercase_of(s: &str) -> (out: String)
    ensures
        out@ == str_lowercase(s@),
        all_ascii(s@) ==> out@ == s@.map_values(|c: char| ascii_lower(c)),
{
    s.to_lowercase()
}

/// Whether `c` belongs to a word: where `ascii_only`, an ASCII letter or
/// digit; otherwise a character for which `char::is_alphanumeric` holds,
/// which on ASCII is again exactly a letter or digit.
pub open spec fn word_char(c: char, ascii_only: bool) -> bool {
    if ascii_only || (c as u32) < 128 {
        ascii_alphanumeric(c)
    } else {
        char_alphanumeric(c)
    }
}

/// Splits `s` at the characters that are not word characters: the
/// non-empty runs that a separator ended, and the run after the last
/// separator.
pub open spec fn word_parts_in(s: Seq<char>, ascii_only: bool) -> (Seq<Seq<char>>, Seq<char>)
    decreases s.len(),
{
    if s.len() == 0 {
        (Seq::empty(), Seq::empty())
    } else {
        let (done, run) = word_parts_in(s.drop_last(), ascii_only);
        if word_char(s.last(), ascii_only) {
            (done, run.push(s.last()))
        } else if run.len() > 0 {
            (done.push(run), Seq::empty())
        } else {
            (done, Seq::empty())
        }
    }
}

/// The maximal runs of word characters of `s`, in order.
pub open spec fn words_in(s: Seq<char>, ascii_only: bool) -> Seq<Seq<char>> {
    let (done, run) = word_parts_in(s, ascii_only);
    if run.len() > 0 {
        done.push(run)
    } else {
        done
    }
}

/// The maximal runs of alphanumeric characters of `s`, in order.
pub open spec fn words(s: Seq<char>) -> Seq<Seq<char>> {
    words_in(s, false)
}

/// The parts one after another.
pub open spec fn concat(parts: Seq<Seq<char>>) -> Seq<char>
    decreases parts.len(),
{
    if parts.len() == 0 {
        Seq::empty()
    } else {
        concat(parts.drop_last()) + parts.last()
    }
}

/// A word with its first character upper-cased and the rest lower-cased.
pub open spec fn capitalized(word: Seq<char>) -> Seq<char> {
    char_uppercase(word[0]) + str_lowercase(word.drop_first())
}

/// The words of `s`, each capitalized, with nothing between them.
pub open spec fn pascal_case(s: Seq<char>) -> Seq<char> {
    concat(words(s).map_values(|w: Seq<char>| capitalized(w)))
}

/// An ASCII word with its first character in upper case and the rest in
/// lower case.
pub open spec fn ascii_capitalized(word: Seq<char>) -> Seq<char> {
    seq![ascii_upper(word[0])] + word.drop_first().map_values(|c: char| ascii_lower(c))
}

/// The PascalCase of an ASCII text: its runs of ASCII letters and digits,
/// each capitalized, with nothing between them.
pub open spec fn ascii_pascal_case(s: Seq<char>) -> Seq<char> {
    concat(words_in(s, true).map_values(|w: Seq<char>| ascii_capitalized(w)))
}

/// Appends the capitalized form of the non-empty `word` to `out`.
fn push_capitalized(out: &mut String, word: &Vec<char>)
    requires
        word@.len() > 0,
    ensures
        final(out)@ == old(out)@ + capitalized(word@),
        all_ascii(word@) ==> final(out)@ == old(out)@ + ascii_capitalized(word@),
{
    let first = uppercase_of(word[0]);
    let mut rest: Vec<char> = Vec::new();
    let mut i: usize = 1;
    while i < word.len()
        invariant
            1 <= i <= word.len(),
            rest@ == word@.subrange(1, i as int),
        decreases word.len() - i,
    {
        rest.push(word[i]);
        i = i + 1;
        assert(rest@ == word@.subrange(1, i as int));
    }
    assert(rest@ == word@.drop_first());
    let rest_text = string_of(&rest);
    let lowered = lowercase_of(rest_text.as_str());
    out.append(first.as_str());
    out.append(lowered.as_str());
    proof {
        if all_ascii(word@) {
            assert((word@[0] as u32) < 128);
            assert(all_ascii(rest@));
            assert(old(out)@ + first@ + lowered@ == old(out)@ + ascii_capitalized(word@));
        }
    }
}

/// Joins the alphanumeric words of `s`, each with an upper-case first
/// character and lower-case rest: `"read_file"` becomes `"ReadFile"`. On an
/// all-ASCII text the words are the runs of ASCII letters and digits and the
/// case mapping is the ASCII one.
pub fn to_pascal_case(s: &str) -> (out: String)
    ensures
        out@ == pascal_case(s@),
        all_ascii(s@) ==> out@ == ascii_pascal_case(s@),
{
    let chars = chars_of(s);
    let ghost f = |w: Seq<char>| capitalized(w);
    let ghost fa = |w: Seq<char>| ascii_capitalized(w);
    let mut out = String::new();
    let mut run: Vec<char> = Vec::new();
    let ghost mut done: Seq<Seq<char>> = Seq::empty();
    let mut i: usize = 0;
    while i < chars.len()
        invariant
            i <= chars.len(),
            chars@ == s@,
            f == (|w: Seq<char>| capitalized(w)),
            fa == (|w: Seq<char>| ascii_capitalized(w)),
            word_parts_in(chars@.take(i as int), false) == (done, run@),
            out@ == concat(done.map_values(f)),
            all_ascii(chars@.take(i as int)) ==> {
                &&& word_parts_in(chars@.take(i as int), true) == (done, run@)
                &&& all_ascii(run@)
                &&& out@ == concat(done.map_values(fa))
            },
        decreases chars.len() - i,
    {
        let c = chars[i];
        let ghost prefix_ascii = all_ascii(chars@.take(i + 1));
        assert(chars@.take(i + 1).drop_last() == chars@.take(i as int));
        proof {
            if prefix_ascii {
                assert forall|k: int| 0 <= k < i implies (chars@.take(i as int)[k] as u32) < 128 by {
                    assert(chars@.take(i as int)[k] == chars@.take(i + 1)[k]);
                }
                assert(chars@.take(i + 1)[i as int] == c);
            }
        }
        if is_alphanumeric(c) {
            run.push(c);
        } else if run.len() > 0 {
            let ghost old_parts = done.map_values(f);
            let ghost old_ascii_parts = done.map_values(fa);
            push_capitalized(&mut out, &run);
            proof {
                let new_done = done.push(run@);
                assert(new_done.map_values(f) == old_parts.push(f(run@)));
                assert(old_parts.push(f(run@)).drop_last() == old_parts);
                assert(new_done.map_values(fa) == old_ascii_parts.push(fa(run@)));
                assert(old_ascii_parts.push(fa(run@)).drop_last() == old_ascii_parts);
                done = new_done;
            }
            run = Vec::new();
        }
        i = i + 1;
    }
    assert(chars@.take(i as int) == s@);
    if run.len() > 0 {
        let ghost old_parts = done.map_values(f);
        let ghost old_ascii_parts = done.map_values(fa);
        push_capitalized(&mut out, &run);
        proof {
            assert(done.push(run@).map_values(f) == old_parts.push(f(run@)));
            assert(old_parts.push(f(run@)).drop_last() == old_parts);
            assert(done.push(run@).map_values(fa) == old_ascii_parts.push(fa(run@)));
            assert(old_ascii_parts.push(fa(run@)).drop_last() == old_ascii_parts);
        }
    }
    out
}


/// Whether `c` has the Unicode White_Space property (`char::is_whitespace`):
/// tab, line feed, vertical tab, form feed, carriage return, space, next
/// line, no-break space, ogham space mark, the spaces from en quad to hair
/// space, line separator, paragraph separator, narrow no-break space,
/// medium mathematical space and ideographic space.
pub open spec fn char_whitespace(c: char) -> bool {
    ('\t' <= c && c <= '\r') || c == ' ' || c == '\u{85}' || c == '\u{a0}' || c == '\u{1680}'
        || ('\u{2000}' <= c && c <= '\u{200a}') || c == '\u{2028}' || c == '\u{2029}' || c
        == '\u{202f}' || c == '\u{205f}' || c == '\u{3000}'
}

/// Whether `c` is whitespace in the sense of `char::is_whitespace`.
pub fn is_whitespace(c: char) -> (b: bool)
    ensures
        b == char_whitespace(c),
{
    ('\t' <= c && c <= '\r') || c == ' ' || c == '\u{85}' || c == '\u{a0}' || c == '\u{1680}'
        || ('\u{2000}' <= c && c <= '\u{200a}') || c == '\u{2028}' || c == '\u{2029}' || c
        == '\u{202f}' || c == '\u{205f}' || c == '\u{3000}'
}

/// `s` without its leading whitespace.
pub open spec fn trim_start(s: Seq<char>) -> Seq<char>
    decreases s.len(),
{
    if s.len() > 0 && char_whitespace(s[0]) {
        trim_start(s.drop_first())
    } else {
        s
    }
}

/// `s` without its trailing whitespace.
pub open spec fn trim_end(s: Seq<char>) -> Seq<char>
    decreases s.len(),
{
    if s.len() > 0 && char_whitespace(s.last()) {
        trim_end(s.drop_last())
    } else {
        s
    }
}

/// `s` without leading and trailing whitespace, as `str::trim` returns it.
pub open spec fn trimmed(s: Seq<char>) -> Seq<char> {
    trim_end(trim_start(s))
}

proof fn lemma_trim_start_skip(s: Seq<char>, i: int)
    requires
        0 <= i <= s.len(),
        forall|k: int| 0 <= k < i ==> char_whitespace(#[trigger] s[k]),
    ensures
        trim_start(s) == trim_start(s.skip(i)),
    decreases i,
{
    if i > 0 {
        assert(s.skip(1) == s.drop_first());
        lemma_trim_start_skip(s.drop_first(), i - 1);
        assert(s.drop_first().skip(i - 1) == s.skip(i));
    } else {
        assert(s.skip(0) == s);
    }
}

proof fn lemma_trim_end_take(s: Seq<char>, j: int)
    requires
        0 <= j <= s.len(),
        forall|k: int| j <= k < s.len() ==> char_whitespace(#[trigger] s[k]),
    ensures
        trim_end(s) == trim_end(s.take(j)),
    decreases s.len() - j,
{
    if j < s.len() {
        assert(s.take(s.len() - 1) == s.drop_last());
        lemma_trim_end_take(s.drop_last(), j);
        assert(s.drop_last().take(j) == s.take(j));
    } else {
        assert(s.take(j) == s);
    }
}

/// Removes leading and trailing whitespace (`str::trim`).
pub fn trim(s: &str) -> (out: String)
    ensures
        out@ == trimmed(s@),
{
    let chars = chars_of(s);
    let mut i: usize = 0;
    while i < chars.len() && is_whitespace(chars[i])
        invariant
            i <= chars.len(),
            chars@ == s@,
            forall|k: int| 0 <= k < i ==> char_whitespace(#[trigger] chars@[k]),
        decreases chars.len() - i,
    {
        i = i + 1;
    }
    proof {
        lemma_trim_start_skip(s@, i as int);
    }
    let ghost rest = s@.skip(i as int);
    assert(trim_start(rest) == rest);
    let mut j: usize = chars.len();
    while j > i && is_whitespace(chars[j - 1])
        invariant
            i <= j <= chars.len(),
            chars@ == s@,
            rest == s@.skip(i as int),
            forall|k: int| j <= k < chars@.len() ==> char_whitespace(#[trigger] chars@[k]),
        decreases j,
    {
        j = j - 1;
    }
    proof {
        assert forall|k: int| (j - i) <= k < rest.len() implies char_whitespace(
            #[trigger] rest[k],
        ) by {
            assert(rest[k] == chars@[k + i]);
        }
        lemma_trim_end_take(rest, j - i);
        assert(rest.take(j - i) == s@.subrange(i as int, j as int));
        if j > i {
            assert(!char_whitespace(rest.take(j - i).last()));
        }
    }
    let mut kept: Vec<char> = Vec::new();
    let mut k: usize = i;
    while k < j
        invariant
            i <= k <= j <= chars.len(),
            kept@ == chars@.subrange(i as int, k as int),
        decreases j - k,
    {
        kept.push(chars[k]);
        k = k + 1;
        assert(kept@ == chars@.subrange(i as int, k as int));
    }
    string_of(&kept)
}

/// The lines of `s` (`str::lines`), each as its own string.
pub fn lines_of(s: &str) -> (out: Vec<String>)
    ensures
        out@.map_values(|l: String| l@) == lines(s@),
{
    let chars = chars_of(s);
    let ghost g = |l: Seq<char>| strip_cr(l);
    let ghost v = |l: String| l@;
    let mut out: Vec<String> = Vec::new();
    let mut cur: Vec<char> = Vec::new();
    let ghost mut done: Seq<Seq<char>> = Seq::empty();
    let mut i: usize = 0;
    while i < chars.len()
        invariant
            i <= chars.len(),
            g == (|l: Seq<char>| strip_cr(l)),
            v == (|l: String| l@),
            line_parts(chars@.take(i as int)) == (done, cur@),
            out@.map_values(v) == done.map_values(g),
        decreases chars.len() - i,
    {
        let c = chars[i];
        assert(chars@.take(i + 1).drop_last() == chars@.take(i as int));
        if c == '\n' {
            let line = without_final_cr(&cur);
            let text = string_of(&line);
            let ghost old_out = out@;
            out.push(text);
            proof {
                let new_done = done.push(cur@);
                assert(out@.map_values(v) == old_out.map_values(v).push(g(cur@)));
                assert(new_done.map_values(g) == done.map_values(g).push(g(cur@)));
                done = new_done;
            }
            cur = Vec::new();
        } else {
            cur.push(c);
        }
        i = i + 1;
    }
    assert(chars@.take(i as int) == s@);
    if cur.len() > 0 {
        let text = string_of(&cur);
        let ghost old_out = out@;
        out.push(text);
        assert(out@.map_values(v) == old_out.map_values(v).push(cur@));
    }
    assert(out@.map_values(v) == lines(s@));
    out
}

/// What `String::from_utf8_lossy` returns for `bytes`.
pub uninterp spec fn utf8_lossy(bytes: Seq<u8>) -> Seq<char>;

/// `String::from_utf8_lossy`, owned: the text of `bytes` with every invalid
/// UTF-8 sequence replaced by U+FFFD; valid UTF-8 is decoded unchanged.
#[verifier::external_body]
pub(crate) fn lossy_text(bytes: &[u8]) -> (s: String)
    ensures
        s@ == utf8_lossy(bytes@),
        vstd::utf8::valid_utf8(bytes@) ==> s@ == vstd::utf8::decode_utf8(bytes@),
{
    String::from_utf8_lossy(bytes).into_owned()
}


/// A cut text is never longer than the limit plus the marker, and always
/// starts with as many of the text's first characters as the limit allows;
/// a text within the limit is left as it is.
pub proof fn truncate_bounds(s: Seq<char>, max_chars: nat)
    ensures
        truncated(s, max_chars).len() <= max_chars + truncation_marker().len(),
        s.len() <= max_chars ==> truncated(s, max_chars) == s,
        s.len() > max_chars ==> truncated(s, max_chars).take(max_chars as int) == s.take(
            max_chars as int,
        ),
{
    if s.len() > max_chars {
        let t = truncated(s, max_chars);
        assert(t.take(max_chars as int) =~= s.take(max_chars as int));
    }
}

proof fn lemma_trim_start_shape(s: Seq<char>)
    ensures
        trim_start(s).len() > 0 ==> !char_whitespace(trim_start(s)[0]),
        exists|i: int| 0 <= i <= s.len() && trim_start(s) == #[trigger] s.skip(i),
    decreases s.len(),
{
    if s.len() > 0 && char_whitespace(s[0]) {
        lemma_trim_start_shape(s.drop_first());
        let i = choose|i: int| 0 <= i <= s.drop_first().len() && trim_start(s.drop_first()) == #[trigger] s.drop_first().skip(i);
        assert(s.drop_first().skip(i) == s.skip(i + 1));
    } else {
        assert(s.skip(0) == s);
    }
}

proof fn lemma_trim_end_shape(s: Seq<char>)
    ensures
        trim_end(s).len() > 0 ==> !char_whitespace(trim_end(s).last()),
        exists|j: int| 0 <= j <= s.len() && trim_end(s) == #[trigger] s.take(j),
    decreases s.len(),
{
    if s.len() > 0 && char_whitespace(s.last()) {
        lemma_trim_end_shape(s.drop_last());
        let j = choose|j: int| 0 <= j <= s.drop_last().len() && trim_end(s.drop_last()) == #[trigger] s.drop_last().take(j);
        assert(s.drop_last().take(j) == s.take(j));
    } else {
        assert(s.take(s.len() as int) == s);
    }
}

/// A trimmed text starts and ends with no whitespace, and trimming it again
/// changes nothing.
pub proof fn trim_idempotent(s: Seq<char>)
    ensures
        trimmed(s).len() > 0 ==> !char_whitespace(trimmed(s)[0]) && !char_whitespace(
            trimmed(s).last(),
        ),
        trimmed(trimmed(s)) == trimmed(s),
{
    let a = trim_start(s);
    let t = trim_end(a);
    lemma_trim_start_shape(s);
    lemma_trim_end_shape(a);
    let j = choose|j: int| 0 <= j <= a.len() && t == #[trigger] a.take(j);
    if t.len() > 0 {
        assert(t[0] == a[0]);
    }
    // trim_start(t) == t: its first character, if any, is no whitespace.
    assert(trim_start(t) == t);
    // trim_end(t) == t: its last character, if any, is no whitespace.
    assert(trim_end(t) == t);
}

/// Trimming removes only whitespace, and only from the ends: the result is
/// a contiguous piece of the text, and every character before or after
/// that piece is whitespace.
pub proof fn trim_removes_only_whitespace(s: Seq<char>)
    ensures
        exists|i: int, j: int|
            0 <= i <= j <= s.len() && trimmed(s) == s.subrange(i, j) && (forall|k: int|
                0 <= k < i ==> char_whitespace(#[trigger] s[k])) && (forall|k: int|
                j <= k < s.len() ==> char_whitespace(#[trigger] s[k])),
{
    lemma_trim_start_removed(s);
    let i = choose|i: int|
        0 <= i <= s.len() && trim_start(s) == #[trigger] s.skip(i) && (forall|k: int|
            0 <= k < i ==> char_whitespace(#[trigger] s[k]));
    let a = trim_start(s);
    lemma_trim_end_removed(a);
    let m = choose|m: int|
        0 <= m <= a.len() && trim_end(a) == #[trigger] a.take(m) && (forall|k: int|
            m <= k < a.len() ==> char_whitespace(#[trigger] a[k]));
    let j = i + m;
    assert(trimmed(s) =~= s.subrange(i, j));
    assert forall|k: int| j <= k < s.len() implies char_whitespace(#[trigger] s[k]) by {
        assert(s[k] == a[k - i]);
    }
}

proof fn lemma_trim_start_removed(s: Seq<char>)
    ensures
        exists|i: int|
            0 <= i <= s.len() && trim_start(s) == #[trigger] s.skip(i) && (forall|k: int|
                0 <= k < i ==> char_whitespace(#[trigger] s[k])),
    decreases s.len(),
{
    if s.len() > 0 && char_whitespace(s[0]) {
        let t = s.drop_first();
        lemma_trim_start_removed(t);
        let i = choose|i: int|
            0 <= i <= t.len() && trim_start(t) == #[trigger] t.skip(i) && (forall|k: int|
                0 <= k < i ==> char_whitespace(#[trigger] t[k]));
        assert(t.skip(i) == s.skip(i + 1));
        assert forall|k: int| 0 <= k < i + 1 implies char_whitespace(#[trigger] s[k]) by {
            if k > 0 {
                assert(s[k] == t[k - 1]);
            }
        }
    } else {
        assert(s.skip(0) == s);
    }
}

proof fn lemma_trim_end_removed(s: Seq<char>)
    ensures
        exists|j: int|
            0 <= j <= s.len() && trim_end(s) == #[trigger] s.take(j) && (forall|k: int|
                j <= k < s.len() ==> char_whitespace(#[trigger] s[k])),
    decreases s.len(),
{
    if s.len() > 0 && char_whitespace(s.last()) {
        let t = s.drop_last();
        lemma_trim_end_removed(t);
        let j = choose|j: int|
            0 <= j <= t.len() && trim_end(t) == #[trigger] t.take(j) && (forall|k: int|
                j <= k < t.len() ==> char_whitespace(#[trigger] t[k]));
        assert(t.take(j) == s.take(j));
        assert forall|k: int| j <= k < s.len() implies char_whitespace(#[trigger] s[k]) by {
            if k < s.len() - 1 {
                assert(s[k] == t[k]);
            }
        }
    } else {
        assert(s.take(s.len() as int) == s);
    }
}

proof fn lemma_word_parts_after_separator(a: Seq<char>, b: Seq<char>, ascii_only: bool)
    requires
        word_parts_in(a, ascii_only).1.len() == 0,
    ensures
        word_parts_in(a + b, ascii_only) == (word_parts_in(a, ascii_only).0 + word_parts_in(
            b,
            ascii_only,
        ).0, word_parts_in(b, ascii_only).1),
    decreases b.len(),
{
    if b.len() == 0 {
        assert(a + b == a);
    } else {
        lemma_word_parts_after_separator(a, b.drop_last(), ascii_only);
        assert((a + b).drop_last() == a + b.drop_last());
        let (d, r) = word_parts_in(b.drop_last(), ascii_only);
        if !word_char(b.last(), ascii_only) && r.len() > 0 {
            assert(word_parts_in(a, ascii_only).0 + d.push(r) == (word_parts_in(a, ascii_only).0
                + d).push(r));
        }
    }
}

proof fn lemma_concat_append(x: Seq<Seq<char>>, y: Seq<Seq<char>>)
    ensures
        concat(x + y) == concat(x) + concat(y),
    decreases y.len(),
{
    if y.len() == 0 {
        assert(x + y == x);
    } else {
        lemma_concat_append(x, y.drop_last());
        assert((x + y).drop_last() == x + y.drop_last());
    }
}

proof fn lemma_words_split(a: Seq<char>, sep: char, b: Seq<char>, ascii_only: bool)
    requires
        !word_char(sep, ascii_only),
    ensures
        words_in(a + seq![sep] + b, ascii_only) == words_in(a, ascii_only) + words_in(
            b,
            ascii_only,
        ),
{
    let x = a.push(sep);
    assert(x.drop_last() == a);
    assert(a + seq![sep] == x);
    lemma_word_parts_after_separator(x, b, ascii_only);
}

/// A character that is not alphanumeric separates words: the PascalCase of
/// two texts joined by it is the PascalCase of the first followed by that of
/// the second.
pub proof fn pascal_case_splits_at_separators(a: Seq<char>, sep: char, b: Seq<char>)
    requires
        !word_char(sep, false),
    ensures
        pascal_case(a + seq![sep] + b) == pascal_case(a) + pascal_case(b),
{
    lemma_words_split(a, sep, b, false);
    let f = |w: Seq<char>| capitalized(w);
    assert((words(a) + words(b)).map_values(f) == words(a).map_values(f) + words(b).map_values(f));
    lemma_concat_append(words(a).map_values(f), words(b).map_values(f));
}

/// Joining two texts with `_` joins their PascalCase forms.
pub proof fn pascal_case_splits_at_underscore(a: Seq<char>, b: Seq<char>)
    ensures
        pascal_case(a + seq!['_'] + b) == pascal_case(a) + pascal_case(b),
{
    pascal_case_splits_at_separators(a, '_', b);
}

/// Writing `_` in place of every character that is not alphanumeric leaves
/// the PascalCase unchanged.
pub proof fn pascal_case_ignores_separators(s: Seq<char>)
    ensures
        pascal_case(s.map_values(|c: char| separator_to(c, '_', false))) == pascal_case(s),
{
    pascal_case_ignores_separator_kind(s, '_');
}

/// On ASCII text (where `to_pascal_case` is `ascii_pascal_case`), joining
/// two texts with `_` joins their PascalCase forms.
pub proof fn ascii_pascal_case_splits_at_underscore(a: Seq<char>, b: Seq<char>)
    ensures
        ascii_pascal_case(a + seq!['_'] + b) == ascii_pascal_case(a) + ascii_pascal_case(b),
{
    lemma_words_split(a, '_', b, true);
    let f = |w: Seq<char>| ascii_capitalized(w);
    let wa = words_in(a, true);
    let wb = words_in(b, true);
    assert((wa + wb).map_values(f) == wa.map_values(f) + wb.map_values(f));
    lemma_concat_append(wa.map_values(f), wb.map_values(f));
}

/// `c`, or `sep` in place of a character that is no word character.
pub open spec fn separator_to(c: char, sep: char, ascii_only: bool) -> char {
    if word_char(c, ascii_only) {
        c
    } else {
        sep
    }
}

proof fn lemma_word_parts_separators(s: Seq<char>, sep: char, ascii_only: bool)
    requires
        !word_char(sep, ascii_only),
    ensures
        word_parts_in(s.map_values(|c: char| separator_to(c, sep, ascii_only)), ascii_only)
            == word_parts_in(s, ascii_only),
    decreases s.len(),
{
    let g = |c: char| separator_to(c, sep, ascii_only);
    if s.len() > 0 {
        lemma_word_parts_separators(s.drop_last(), sep, ascii_only);
        assert(s.map_values(g).drop_last() == s.drop_last().map_values(g));
        assert(s.map_values(g).last() == g(s.last()));
    } else {
        assert(s.map_values(g) == s);
    }
}

/// Which separators stand between the words does not matter: writing
/// `sep`, itself no alphanumeric character, in place of every character
/// that is not alphanumeric leaves the PascalCase unchanged.
pub proof fn pascal_case_ignores_separator_kind(s: Seq<char>, sep: char)
    requires
        !word_char(sep, false),
    ensures
        pascal_case(s.map_values(|c: char| separator_to(c, sep, false))) == pascal_case(s),
{
    lemma_word_parts_separators(s, sep, false);
}

/// On ASCII text, writing `_` in place of every character that is no ASCII
/// letter or digit leaves the PascalCase unchanged.
pub proof fn ascii_pascal_case_ignores_separator_kind(s: Seq<char>)
    ensures
        all_ascii(s) ==> all_ascii(s.map_values(|c: char| separator_to(c, '_', true))),
        ascii_pascal_case(s.map_values(|c: char| separator_to(c, '_', true)))
            == ascii_pascal_case(s),
{
    lemma_word_parts_separators(s, '_', true);
}

/// Each character of a word in ASCII lower case.
pub open spec fn lower_word(w: Seq<char>) -> Seq<char> {
    w.map_values(|c: char| ascii_lower(c))
}

proof fn lemma_ascii_case_facts(c: char)
    ensures
        word_char(ascii_lower(c), true) == word_char(c, true),
        ascii_upper(ascii_lower(c)) == ascii_upper(c),
        ascii_lower(ascii_lower(c)) == ascii_lower(c),
        (c as u32) < 128 ==> (ascii_lower(c) as u32) < 128,
{
}

proof fn lemma_word_parts_lowered(s: Seq<char>)
    ensures
        word_parts_in(lower_word(s), true) == (
            word_parts_in(s, true).0.map_values(|w: Seq<char>| lower_word(w)),
            lower_word(word_parts_in(s, true).1),
        ),
    decreases s.len(),
{
    let m = |w: Seq<char>| lower_word(w);
    if s.len() > 0 {
        lemma_word_parts_lowered(s.drop_last());
        assert(lower_word(s).drop_last() == lower_word(s.drop_last()));
        assert(lower_word(s).last() == ascii_lower(s.last()));
        lemma_ascii_case_facts(s.last());
        let (d, r) = word_parts_in(s.drop_last(), true);
        assert(lower_word(r.push(s.last())) == lower_word(r).push(ascii_lower(s.last())));
        assert(d.push(r).map_values(m) == d.map_values(m).push(m(r)));
        assert(lower_word(Seq::<char>::empty()) == Seq::<char>::empty());
    } else {
        assert(lower_word(s) == s);
        assert(Seq::<Seq<char>>::empty().map_values(m) == Seq::<Seq<char>>::empty());
    }
}

/// On ASCII text, letter case does not change the PascalCase: the text in
/// ASCII lower case has the same PascalCase.
pub proof fn ascii_pascal_case_ignores_case(s: Seq<char>)
    ensures
        all_ascii(s) ==> all_ascii(lower_word(s)),
        ascii_pascal_case(lower_word(s)) == ascii_pascal_case(s),
{
    let m = |w: Seq<char>| lower_word(w);
    let f = |w: Seq<char>| ascii_capitalized(w);
    lemma_word_parts_lowered(s);
    if all_ascii(s) {
        assert forall|i: int| 0 <= i < s.len() implies (#[trigger] lower_word(s)[i] as u32) < 128 by {
            lemma_ascii_case_facts(s[i]);
        }
    }
    let ws = words_in(s, true);
    let (d, r) = word_parts_in(s, true);
    assert(words_in(lower_word(s), true) == ws.map_values(m)) by {
        if r.len() > 0 {
            assert(d.push(r).map_values(m) == d.map_values(m).push(m(r)));
        }
    }
    lemma_words_nonempty(s);
    assert forall|k: int| 0 <= k < ws.len() implies #[trigger] f(m(ws[k])) == f(ws[k]) by {
        let w = ws[k];
        lemma_ascii_case_facts(w[0]);
        assert forall|j: int| 0 <= j < w.len() - 1 implies #[trigger] lower_word(m(w).drop_first())[j]
            == lower_word(w.drop_first())[j] by {
            lemma_ascii_case_facts(w[j + 1]);
        }
        assert(lower_word(m(w).drop_first()) == lower_word(w.drop_first()));
    }
    assert(ws.map_values(m).map_values(f) == ws.map_values(f));
}

proof fn lemma_words_nonempty(s: Seq<char>)
    ensures
        forall|k: int| 0 <= k < words_in(s, true).len() ==> (#[trigger] words_in(s, true)[k]).len() > 0,
        forall|k: int| 0 <= k < word_parts_in(s, true).0.len() ==> (#[trigger] word_parts_in(s, true).0[k]).len() > 0,
    decreases s.len(),
{
    let (d, r) = word_parts_in(s, true);
    if s.len() > 0 {
        lemma_words_nonempty(s.drop_last());
        let (d0, r0) = word_parts_in(s.drop_last(), true);
        assert forall|k: int| 0 <= k < d.len() implies (#[trigger] d[k]).len() > 0 by {
            if k < d0.len() {
                assert(d[k] == d0[k]);
            }
        }
    }
    assert forall|k: int| 0 <= k < words_in(s, true).len() implies (#[trigger] words_in(s, true)[k]).len() > 0 by {
        if k < d.len() {
            assert(words_in(s, true)[k] == d[k]);
        }
    }
}


/// Whether `s` has no newline and no carriage return.
pub open spec fn no_line_breaks(s: Seq<char>) -> bool {
    forall|i: int| 0 <= i < s.len() ==> s[i] != '\n' && s[i] != '\r'
}

proof fn lemma_line_parts_no_newline(x: Seq<char>, y: Seq<char>)
    requires
        forall|i: int| 0 <= i < y.len() ==> y[i] != '\n',
    ensures
        line_parts(x + y) == (line_parts(x).0, line_parts(x).1 + y),
    decreases y.len(),
{
    if y.len() == 0 {
        assert(x + y == x);
        assert(line_parts(x).1 + y == line_parts(x).1);
    } else {
        lemma_line_parts_no_newline(x, y.drop_last());
        assert((x + y).drop_last() == x + y.drop_last());
        assert(line_parts(x).1 + y.drop_last() + seq![y.last()] == line_parts(x).1 + y);
        assert((line_parts(x).1 + y.drop_last()).push(y.last()) == line_parts(x).1 + y);
    }
}

proof fn lemma_line_parts_of_join(parts: Seq<Seq<char>>)
    requires
        parts.len() > 0,
        forall|k: int| 0 <= k < parts.len() ==> no_line_breaks(#[trigger] parts[k]),
    ensures
        line_parts(join(parts, "\n"@)) == (parts.drop_last(), parts.last()),
    decreases parts.len(),
{
    reveal_strlit("\n");
    let e = Seq::<char>::empty();
    if parts.len() == 1 {
        lemma_line_parts_no_newline(e, parts[0]);
        assert(e + parts[0] == parts[0]);
        assert(parts.drop_last() == Seq::<Seq<char>>::empty());
    } else {
        let init = parts.drop_last();
        lemma_line_parts_of_join(init);
        let head = join(init, "\n"@);
        let with_nl = head + "\n"@;
        assert(with_nl.drop_last() == head);
        assert(with_nl.last() == '\n');
        assert(line_parts(with_nl) == (init.drop_last().push(init.last()), e));
        assert(init.drop_last().push(init.last()) == init);
        lemma_line_parts_no_newline(with_nl, parts.last());
        assert(e + parts.last() == parts.last());
    }
}

proof fn lemma_lines_of_join(parts: Seq<Seq<char>>)
    requires
        parts.len() > 0 ==> parts.last().len() > 0,
        forall|k: int| 0 <= k < parts.len() ==> no_line_breaks(#[trigger] parts[k]),
    ensures
        lines(join(parts, "\n"@)) == parts,
{
    let g = |l: Seq<char>| strip_cr(l);
    if parts.len() == 0 {
        assert(lines(join(parts, "\n"@)) =~= parts);
    } else {
        lemma_line_parts_of_join(parts);
        let init = parts.drop_last();
        assert forall|k: int| 0 <= k < init.len() implies #[trigger] g(init[k]) == init[k] by {
            assert(init[k] == parts[k]);
            if init[k].len() > 0 {
                assert(init[k][init[k].len() - 1] != '\r');
            }
        }
        assert(init.map_values(g) =~= init);
        assert(lines(join(parts, "\n"@)) =~= init.push(parts.last()));
        assert(init.push(parts.last()) == parts);
    }
}

proof fn lemma_line_parts_no_breaks(s: Seq<char>)
    requires
        forall|i: int| 0 <= i < s.len() ==> s[i] != '\r',
    ensures
        forall|k: int| 0 <= k < line_parts(s).0.len() ==> no_line_breaks(#[trigger] line_parts(s).0[k]),
        no_line_breaks(line_parts(s).1),
    decreases s.len(),
{
    if s.len() > 0 {
        lemma_line_parts_no_breaks(s.drop_last());
    }
}

proof fn lemma_lines_no_breaks(s: Seq<char>)
    requires
        forall|i: int| 0 <= i < s.len() ==> s[i] != '\r',
    ensures
        forall|k: int| 0 <= k < lines(s).len() ==> no_line_breaks(#[trigger] lines(s)[k]),
        forall|k: int| 0 <= k < lines(s).len() ==> lines(s)[k] == (if k < line_parts(s).0.len() {
            line_parts(s).0[k]
        } else {
            line_parts(s).1
        }),
{
    lemma_line_parts_no_breaks(s);
    let (done, tail) = line_parts(s);
    assert forall|k: int| 0 <= k < done.len() implies strip_cr(#[trigger] done[k]) == done[k] by {
        if done[k].len() > 0 {
            assert(done[k][done[k].len() - 1] != '\r');
        }
    }
}

/// Indenting twice adds the indents: for a text without carriage returns,
/// indenting by `a > 0` spaces and then by `b` spaces is indenting by
/// `a + b` spaces.
pub proof fn indent_twice(s: Seq<char>, a: nat, b: nat)
    requires
        a > 0,
        forall|i: int| 0 <= i < s.len() ==> s[i] != '\r',
    ensures
        indented(indented(s, a), b) == indented(s, a + b),
{
    let fa = |l: Seq<char>| spaces(a) + l;
    let fb = |l: Seq<char>| spaces(b) + l;
    let fab = |l: Seq<char>| spaces(a + b) + l;
    let ls = lines(s);
    let m = ls.map_values(fa);
    lemma_lines_no_breaks(s);
    assert forall|k: int| 0 <= k < m.len() implies no_line_breaks(#[trigger] m[k]) by {
        assert(no_line_breaks(ls[k]));
        assert(m[k] == spaces(a) + ls[k]);
    }
    if m.len() > 0 {
        assert(m.last() == spaces(a) + ls.last());
    }
    lemma_lines_of_join(m);
    assert(spaces(b) + spaces(a) == spaces(a + b));
    assert forall|k: int| 0 <= k < ls.len() implies #[trigger] m.map_values(fb)[k] == ls.map_values(
        fab,
    )[k] by {
        assert(spaces(b) + (spaces(a) + ls[k]) == spaces(b) + spaces(a) + ls[k]);
    }
    assert(m.map_values(fb) =~= ls.map_values(fab));
}


proof fn lemma_join_line_parts(s: Seq<char>)
    ensures
        join(line_parts(s).0.push(line_parts(s).1), "\n"@) == s,
    decreases s.len(),
{
    reveal_strlit("\n");
    let (done, tail) = line_parts(s);
    if s.len() == 0 {
        assert(done.push(tail) =~= seq![Seq::<char>::empty()]);
    } else {
        lemma_join_line_parts(s.drop_last());
        let (d0, t0) = line_parts(s.drop_last());
        if s.last() == '\n' {
            let p = d0.push(t0).push(Seq::<char>::empty());
            assert(p.drop_last() == d0.push(t0));
            assert(s == s.drop_last() + "\n"@ + Seq::<char>::empty());
        } else {
            let p = d0.push(t0.push(s.last()));
            assert(p.drop_last() == d0);
            if d0.len() > 0 {
                assert(d0.push(t0).drop_last() == d0);
                assert(d0.push(t0).last() == t0);
                assert(s.drop_last() == join(d0, "\n"@) + "\n"@ + t0);
                assert(s == s.drop_last().push(s.last()));
                assert((join(d0, "\n"@) + "\n"@ + t0).push(s.last()) == join(d0, "\n"@) + "\n"@
                    + t0.push(s.last()));
            } else {
                assert(s == t0.push(s.last()));
            }
        }
    }
}

/// Indenting by no spaces gives the text back when it has no carriage
/// return and does not end with a newline.
pub proof fn indent_zero_is_identity(s: Seq<char>)
    requires
        forall|i: int| 0 <= i < s.len() ==> s[i] != '\r',
        s.len() == 0 || s.last() != '\n',
    ensures
        indented(s, 0) == s,
{
    let f = |l: Seq<char>| spaces(0) + l;
    let g = |l: Seq<char>| strip_cr(l);
    let (done, tail) = line_parts(s);
    lemma_join_line_parts(s);
    lemma_line_parts_no_breaks(s);
    assert forall|k: int| 0 <= k < done.len() implies #[trigger] g(done[k]) == done[k] by {
        if done[k].len() > 0 {
            assert(done[k][done[k].len() - 1] != '\r');
        }
    }
    assert(done.map_values(g) =~= done);
    assert(lines(s).map_values(f) =~= lines(s));
    if s.len() > 0 {
        assert(tail.len() > 0) by {
            if tail.len() == 0 {
                let (d0, t0) = line_parts(s.drop_last());
                assert(s.last() == '\n');
            }
        }
        assert(lines(s) == done.push(tail));
    } else {
        assert(lines(s) =~= Seq::<Seq<char>>::empty());
    }
}

} // verus!
