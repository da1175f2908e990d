//! Text helpers: JSON string escaping, blank detection, byte order of text
//! and path normalization.

use vstd::prelude::*;
use vstd::std_specs::iter::IteratorSpec;
use vstd::string::StringExecFns;

verus! {

/// Whether a character has Unicode's White_Space property: tab, line feed,
/// vertical tab, form feed, carriage return, space, next line, no-break
/// space, ogham space mark, the spaces from en quad to hair space, line and
/// paragraph separators, narrow no-break space, medium mathematical space
/// and ideographic space.
pub open spec fn unicode_white_space(c: char) -> bool {
    let u = c as u32;
    ||| 0x9 <= u <= 0xD
    ||| u == 0x20
    ||| u == 0x85
    ||| u == 0xA0
    ||| u == 0x1680
    ||| 0x2000 <= u <= 0x200A
    ||| u == 0x2028
    ||| u == 0x2029
    ||| u == 0x202F
    ||| u == 0x205F
    ||| u == 0x3000
}

/// Whether a character is white space, as `char::is_whitespace` decides.
pub fn is_white_space(c: char) -> (res: bool)
    ensures
        res == unicode_white_space(c),
{
    let u = c as u32;
    (0x9 <= u && u <= 0xD) || u == 0x20 || u == 0x85 || u == 0xA0 || u == 0x1680
        || (0x2000 <= u && u <= 0x200A) || u == 0x2028 || u == 0x2029 || u == 0x202F
        || u == 0x205F || u == 0x3000
}

/// A text that is empty once surrounding white space is trimmed: every
/// character is white space.
pub open spec fn blank_text(s: Seq<char>) -> bool {
    forall|i: int| 0 <= i < s.len() ==> unicode_white_space(#[trigger] s[i])
}

/// Whether a text holds nothing but white space (`str::trim` leaves it empty).
pub fn is_blank(text: &str) -> (res: bool)
    ensures
        res == blank_text(text@),
{
    let ghost mut seen: Seq<char> = Seq::empty();
    for c in it: text.chars()
        invariant
            it.seq() == text@,
            seen == it.seq().take(it.index() as int),
            blank_text(seen),
        ensures
            seen.len() == text@.len(),
            blank_text(seen),
    {
        if !is_white_space(c) {
            proof {
                assert(text@[seen.len() as int] == c);
            }
            return false;
        }
        proof {
            seen = seen.push(c);
        }
    }
    proof {
        assert(seen =~= text@);
    }
    true
}

/// The text of a path built from a string, converted back to a string
/// (`Path::new` then `to_string_lossy`); a path made from a `str` holds
/// only valid Unicode, so nothing is replaced.
#[verifier::external_body]
fn path_text(file_path: &str) -> (res: String)
    ensures
        res@ == file_path@,
{
    std::path::Path::new(file_path).to_string_lossy().to_string()
}

/// Normalizes a reported file path without changing its identity.
pub fn normalize_output_path(file_path: &str) -> (res: String)
    ensures
        res@ == file_path@,
{
    path_text(file_path)
}

/// Joins three texts.
pub fn join3(a: &str, b: &str, c: &str) -> (res: String)
    ensures
        res@ == a@ + b@ + c@,
{
    let mut out = String::from_str(a);
    out.append(b);
    out.append(c);
    out
}

/// Joins four texts.
pub fn join4(a: &str, b: &str, c: &str, d: &str) -> (res: String)
    ensures
        res@ == a@ + b@ + c@ + d@,
{
    let mut out = join3(a, b, c);
    out.append(d);
    out
}

/// The characters that one input character becomes inside a JSON string
/// literal written by the fallback encoder.
pub open spec fn json_escape_char(c: char) -> Seq<char> {
    if c == '"' {
        seq!['\\', '"']
    } else if c == '\\' {
        seq!['\\', '\\']
    } else if c == '\n' {
        seq!['\\', 'n']
    } else if c == '\r' {
        seq!['\\', 'r']
    } else if c == '\t' {
        seq!['\\', 't']
    } else {
        seq![c]
    }
}

/// The escaped form of a whole text: each character escaped in turn.
pub open spec fn json_escaped(s: Seq<char>) -> Seq<char>
    decreases s.len(),
{
    if s.len() == 0 {
        Seq::empty()
    } else {
        json_escaped(s.drop_last()) + json_escape_char(s.last())
    }
}

/// Reads JSON string escapes back: a backslash and the character after it
/// stand for that character, `n`, `r` and `t` for a newline, a carriage
/// return and a tab.
pub open spec fn json_unescaped(s: Seq<char>) -> Seq<char>
    decreases s.len(),
{
    if s.len() == 0 {
        Seq::empty()
    } else if s[0] == '\\' && s.len() >= 2 {
        let c = s[1];
        let d = if c == 'n' {
            '\n'
        } else if c == 'r' {
            '\r'
        } else if c == 't' {
            '\t'
        } else {
            c
        };
        seq![d] + json_unescaped(s.skip(2))
    } else {
        seq![s[0]] + json_unescaped(s.skip(1))
    }
}

/// Escaping distributes over concatenation.
proof fn lemma_json_escaped_append(a: Seq<char>, b: Seq<char>)
    ensures
        json_escaped(a + b) == json_escaped(a) + json_escaped(b),
    decreases b.len(),
{
    if b.len() == 0 {
        assert(a + b =~= a);
        assert(json_escaped(a) + json_escaped(b) =~= json_escaped(a));
    } else {
        lemma_json_escaped_append(a, b.drop_last());
        assert((a + b).drop_last() =~= a + b.drop_last());
        assert(json_escaped(a) + json_escaped(b.drop_last()) + json_escape_char(b.last())
            =~= json_escaped(a) + (json_escaped(b.drop_last()) + json_escape_char(b.last())));
    }
}

/// Reading the escapes of an escaped text gives the text back: the fallback
/// encoder loses nothing.
pub proof fn lemma_json_escape_round_trip(s: Seq<char>)
    ensures
        json_unescaped(json_escaped(s)) == s,
    decreases s.len(),
{
    if s.len() > 0 {
        let first = s[0];
        let rest = s.skip(1);
        assert(s =~= seq![first] + rest);
        lemma_json_escaped_append(seq![first], rest);
        assert(seq![first].drop_last() =~= Seq::<char>::empty());
        assert(seq![first].last() == first);
        assert(json_escaped(Seq::<char>::empty()) =~= Seq::<char>::empty());
        assert(json_escaped(seq![first]) =~= Seq::<char>::empty() + json_escape_char(first));
        assert(json_escaped(seq![first]) =~= json_escape_char(first));
        lemma_json_escape_round_trip(rest);
        let e = json_escape_char(first) + json_escaped(rest);
        if json_escape_char(first).len() == 2 {
            assert(e.skip(2) =~= json_escaped(rest));
        } else {
            assert(e.skip(1) =~= json_escaped(rest));
        }
        assert(json_unescaped(e) =~= seq![first] + rest);
    }
}

/// Appends one character to a string (`String::push`).
#[verifier::external_body]
pub(crate) fn push_char(s: &mut String, c: char)
    ensures
        final(s)@ == old(s)@.push(c),
{
    s.push(c);
}

/// Escapes quotes, backslashes, newlines, carriage returns and tabs so that
/// the text can stand inside a JSON string literal.
pub fn escape_json_string(value: &str) -> (escaped: String)
    ensures
        escaped@ == json_escaped(value@),
{
    let mut out = String::new();
    let ghost mut seen: Seq<char> = Seq::empty();
    for c in it: value.chars()
        invariant
            it.seq() == value@,
            seen == it.seq().take(it.index() as int),
            out@ == json_escaped(seen),
        ensures
            seen.len() == value@.len(),
    {
        let ghost prev = seen;
        proof {
            seen = seen.push(c);
            assert(seen.drop_last() =~= prev);
        }
        if c == '"' {
            push_char(&mut out, '\\');
            push_char(&mut out, '"');
        } else if c == '\\' {
            push_char(&mut out, '\\');
            push_char(&mut out, '\\');
        } else if c == '\n' {
            push_char(&mut out, '\\');
            push_char(&mut out, 'n');
        } else if c == '\r' {
            push_char(&mut out, '\\');
            push_char(&mut out, 'r');
        } else if c == '\t' {
            push_char(&mut out, '\\');
            push_char(&mut out, 't');
        } else {
            push_char(&mut out, c);
        }
    }
    assert(seen =~= value@);
    out
}

} // verus!
