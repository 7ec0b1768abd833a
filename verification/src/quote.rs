//! Quoting of strings as JSON string literals, which every template format
//! reads as a quoted string.

use vstd::prelude::*;

verus! {

/// The lower-case hexadecimal digit for `n` below 16.
pub open spec fn hex_digit(n: int) -> char {
    if n < 10 {
        (48 + n) as char
    } else {
        (87 + n) as char
    }
}

/// How a character is written inside a JSON string literal: a quote or a
/// backslash after a backslash; backspace, tab, line feed, form feed and
/// carriage return as `\b`, `\t`, `\n`, `\f`, `\r`; any other character below
/// U+0020 as `\u00` and two lower-case hexadecimal digits; every other
/// character as it is.
pub open spec fn json_char_escape(c: char) -> Seq<char> {
    if c == '"' {
        seq!['\\', '"']
    } else if c == '\\' {
        seq!['\\', '\\']
    } else if c == '\u{8}' {
        seq!['\\', 'b']
    } else if c == '\t' {
        seq!['\\', 't']
    } else if c == '\n' {
        seq!['\\', 'n']
    } else if c == '\u{c}' {
        seq!['\\', 'f']
    } else if c == '\r' {
        seq!['\\', 'r']
    } else if (c as u32) < 0x20 {
        seq!['\\', 'u', '0', '0', hex_digit(((c as u32) / 16) as int), hex_digit(((c as u32) % 16) as int)]
    } else {
        seq![c]
    }
}

/// The characters of `s`, each written as inside a JSON string literal.
pub open spec fn json_escaped(s: Seq<char>) -> Seq<char>
    decreases s.len(),
{
    if s.len() == 0 {
        Seq::empty()
    } else {
        json_escaped(s.drop_last()) + json_char_escape(s.last())
    }
}

/// The JSON string literal for the characters `s`: a quote, the escaped
/// characters, a quote.
pub open spec fn json_string_literal(s: Seq<char>) -> Seq<char> {
    seq!['"'] + json_escaped(s) + seq!['"']
}

/// No character of `s` needs an escape in a JSON string: none is a quote, a
/// backslash or a control character below U+0020.
pub open spec fn json_plain(s: Seq<char>) -> bool {
    forall|i: int| 0 <= i < s.len() ==> {
        let c = #[trigger] s[i];
        c != '"' && c != '\\' && (c as u32) >= 0x20
    }
}

/// A text without characters that need escaping is quoted as it is.
pub proof fn lemma_plain_text_quoted(s: Seq<char>)
    requires
        json_plain(s),
    ensures
        json_escaped(s) == s,
        json_string_literal(s) == seq!['"'] + s + seq!['"'],
    decreases s.len(),
{
    if s.len() > 0 {
        assert(json_plain(s.drop_last())) by {
            assert forall|i: int| 0 <= i < s.drop_last().len() implies {
                let c = #[trigger] s.drop_last()[i];
                c != '"' && c != '\\' && (c as u32) >= 0x20
            } by {
                assert(s.drop_last()[i] == s[i]);
            }
        }
        lemma_plain_text_quoted(s.drop_last());
        let c = s[s.len() - 1];
        assert(c != '"' && c != '\\' && (c as u32) >= 0x20);
        assert(json_char_escape(c) == seq![c]);
        assert(s.drop_last() + seq![c] =~= s);
    }
}

/// Serializes a string as a JSON string literal.
///
/// Calls `serde_json::to_string` on the string, which writes a quote, the
/// string with the escapes of its `ESCAPE` table (`ser.rs`) and the
/// `\u00xx` form with lower-case hexadecimal digits for other control
/// characters, and a quote; that is what `json_string_literal` states.
/// Serializing a string into memory never fails.
#[verifier::external_body]
pub(crate) fn quote_text(s: &str) -> (r: String)
    ensures
        r@ == json_string_literal(s@),
{
    match serde_json::to_string(s) {
        Ok(q) => q,
        Err(_) => String::new(),
    }
}

} // verus!
