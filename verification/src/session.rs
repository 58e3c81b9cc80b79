use vstd::prelude::*;
use crate::text::all_ascii;
use crate::text::ascii_lower;

verus! {

/// `uuid::Error`, the reason a session id did not parse.
#[verifier::external_type_specification]
#[verifier::external_body]
pub struct ExUuidError(uuid::Error);

/// `serde_json::Error`, the reason a saved chat history did not (de)serialise.
#[verifier::external_type_specification]
#[verifier::external_body]
pub struct ExJsonError(serde_json::Error);

/// Failure of saving or loading a chat session.
#[derive(Debug)]
pub enum AgentRuntimeError {
    Io(std::io::Error),
    Serde(serde_json::Error),
    Uuid(uuid::Error),
}

/// `16` to the power `n`.
pub open spec fn pow16(n: nat) -> nat
    decreases n,
{
    if n == 0 {
        1
    } else {
        16 * pow16((n - 1) as nat)
    }
}

/// The value of a hexadecimal digit (either case), if `c` is one.
pub open spec fn hex_digit_value(c: char) -> Option<nat> {
    if '0' <= c && c <= '9' {
        Some(((c as u32) - ('0' as u32)) as nat)
    } else if 'a' <= c && c <= 'f' {
        Some(((c as u32) - ('a' as u32) + 10) as nat)
    } else if 'A' <= c && c <= 'F' {
        Some(((c as u32) - ('A' as u32) + 10) as nat)
    } else {
        None
    }
}

/// The number that the hexadecimal digits `s` write, most significant first.
pub open spec fn hex_value(s: Seq<char>) -> Option<nat>
    decreases s.len(),
{
    if s.len() == 0 {
        Some(0)
    } else {
        match (hex_value(s.drop_last()), hex_digit_value(s.last())) {
            (Some(high), Some(low)) => Some(high * 16 + low),
            _ => None,
        }
    }
}

/// The lower-case hexadecimal digit for `d < 16`.
pub open spec fn hex_char(d: nat) -> char {
    if d < 10 {
        (('0' as u32) + d) as char
    } else {
        (('a' as u32) + d - 10) as char
    }
}

/// The last `n` hexadecimal digits of `v`, lower case, most significant first.
pub open spec fn hex_digits(v: nat, n: nat) -> Seq<char>
    decreases n,
{
    if n == 0 {
        Seq::empty()
    } else {
        hex_digits(v / 16, (n - 1) as nat).push(hex_char(v % 16))
    }
}

/// The 32 hexadecimal digits of a 36-character `8-4-4-4-12` group text, if
/// `s` has that shape.
pub open spec fn hyphenated_digits(s: Seq<char>) -> Option<Seq<char>> {
    if s.len() == 36 && s[8] == '-' && s[13] == '-' && s[18] == '-' && s[23] == '-' {
        Some(s.subrange(0, 8) + s.subrange(9, 13) + s.subrange(14, 18) + s.subrange(19, 23)
            + s.subrange(24, 36))
    } else {
        None
    }
}

/// The value of a hyphenated UUID text.
pub open spec fn hyphenated_value(s: Seq<char>) -> Option<nat> {
    match hyphenated_digits(s) {
        Some(digits) => hex_value(digits),
        None => None,
    }
}

/// The UUID that `s` writes in one of the accepted forms: 32 hexadecimal
/// digits; the hyphenated `8-4-4-4-12` groups; those groups in braces; or
/// those groups after `urn:uuid:` in any letter case.
pub open spec fn uuid_text_value(s: Seq<char>) -> Option<nat> {
    if !all_ascii(s) {
        None
    } else if s.len() == 32 {
        hex_value(s)
    } else if s.len() == 36 {
        hyphenated_value(s)
    } else if s.len() == 38 && s[0] == '{' && s[37] == '}' {
        hyphenated_value(s.subrange(1, 37))
    } else if s.len() == 45 && s.take(9).map_values(|c: char| ascii_lower(c)) == "urn:uuid:"@ {
        hyphenated_value(s.skip(9))
    } else {
        None
    }
}

/// The hyphenated lower-case text of the UUID `id`:
/// 8, 4, 4, 4 and 12 hexadecimal digits separated by `-`.
pub open spec fn uuid_text(id: u128) -> Seq<char> {
    let d = hex_digits(id as nat, 32);
    d.subrange(0, 8) + seq!['-'] + d.subrange(8, 12) + seq!['-'] + d.subrange(12, 16) + seq!['-']
        + d.subrange(16, 20) + seq!['-'] + d.subrange(20, 32)
}

/// `Uuid::now_v7`: a fresh id from the clock and random bits. Of the result
/// only the version (7) and the variant (RFC 4122) bits are stated; the rest
/// depends on the time and on chance.
#[verifier::external_body]
pub(crate) fn fresh_uuid() -> (id: u128)
    ensures
        (id >> 76u128) & 0xfu128 == 7,
        (id >> 62u128) & 0x3u128 == 2,
{
    uuid::Uuid::now_v7().as_u128()
}

/// `Uuid::from_str` (that is, `Uuid::parse_str`), read as a number: accepts
/// exactly the forms that `uuid_text_value` describes, with the value it
/// gives.
#[verifier::external_body]
pub(crate) fn parse_uuid(s: &str) -> (r: Result<u128, uuid::Error>)
    ensures
        match r {
            Ok(id) => uuid_text_value(s@) == Some(id as nat),
            Err(_) => uuid_text_value(s@) is None,
        },
{
    match <uuid::Uuid as std::str::FromStr>::from_str(s) {
        Ok(u) => Ok(u.as_u128()),
        Err(e) => Err(e),
    }
}

/// The `Display` text of `Uuid::from_u128(id)`: the hyphenated lower-case form.
#[verifier::external_body]
pub(crate) fn uuid_to_string(id: u128) -> (s: String)
    ensures
        s@ == uuid_text(id),
{
    uuid::Uuid::from_u128(id).to_string()
}


/// The name of the file a session with id `id` is saved in.
pub open spec fn session_file_name(id: u128) -> Seq<char> {
    uuid_text(id) + ".json"@
}

proof fn lemma_hex_digits_len(v: nat, n: nat)
    ensures
        hex_digits(v, n).len() == n,
        forall|i: int| 0 <= i < n ==> (#[trigger] hex_digits(v, n)[i] as u32) < 128,
    decreases n,
{
    if n > 0 {
        lemma_hex_digits_len(v / 16, (n - 1) as nat);
        assert((v % 16) < 16);
    }
}

proof fn lemma_hex_digits_value(v: nat, n: nat)
    ensures
        hex_value(hex_digits(v, n)) == Some(v % pow16(n)),
    decreases n,
{
    if n == 0 {
        assert(v % 1 == 0);
    } else {
        let m = pow16((n - 1) as nat);
        lemma_hex_digits_value(v / 16, (n - 1) as nat);
        let d = hex_digits(v, n);
        assert(d.drop_last() == hex_digits(v / 16, (n - 1) as nat));
        let low = v % 16;
        assert(hex_digit_value(hex_char(low)) == Some(low));
        lemma_pow16_positive((n - 1) as nat);
        vstd::arithmetic::div_mod::lemma_mod_breakdown(v as int, 16, m as int);
        assert(pow16(n) == 16 * m);
    }
}

proof fn lemma_pow16_positive(n: nat)
    ensures
        pow16(n) > 0,
    decreases n,
{
    if n > 0 {
        lemma_pow16_positive((n - 1) as nat);
    }
}

/// Reading back the text of a session id gives the id: for every `id`,
/// `uuid_text(id)` is a text that parsing accepts, with value `id`.
pub proof fn session_id_text_round_trip(id: u128)
    ensures
        uuid_text_value(uuid_text(id)) == Some(id as nat),
{
    let d = hex_digits(id as nat, 32);
    let t = uuid_text(id);
    lemma_hex_digits_len(id as nat, 32);
    lemma_hex_digits_value(id as nat, 32);
    reveal_with_fuel(pow16, 33);
    assert(pow16(32) == 0x1_0000_0000_0000_0000_0000_0000_0000_0000nat);
    assert((id as nat) % pow16(32) == id as nat);
    assert(t.len() == 36);
    assert(t[8] == '-' && t[13] == '-' && t[18] == '-' && t[23] == '-');
    assert(t.subrange(0, 8) + t.subrange(9, 13) + t.subrange(14, 18) + t.subrange(19, 23)
        + t.subrange(24, 36) =~= d);
    assert forall|i: int| 0 <= i < t.len() implies (t[i] as u32) < 128 by {
        if i < 8 {
            assert(t[i] == d[i]);
        } else if 8 < i < 13 {
            assert(t[i] == d[i - 1]);
        } else if 13 < i < 18 {
            assert(t[i] == d[i - 2]);
        } else if 18 < i < 23 {
            assert(t[i] == d[i - 3]);
        } else if 23 < i {
            assert(t[i] == d[i - 4]);
        }
    }
}

} // verus!
