//! Character-level helpers shared by the path, template and schema modules.

use vstd::prelude::*;

verus! {

/// Appends one character to a string.
///
/// Calls `String::push`, which appends `c` at the end of the string; the
/// contract states exactly that.
#[verifier::external_body]
pub(crate) fn push_char(s: &mut String, c: char)
    ensures
        final(s)@ == old(s)@.push(c),
{
    s.push(c);
}

/// Collects the characters of a string slice into a vector.
pub fn chars_of(s: &str) -> (v: Vec<char>)
    ensures
        v@ == s@,
{
    let n = s.unicode_len();
    let mut v: Vec<char> = Vec::new();
    let mut i: usize = 0;
    while i < n
        invariant
            n == s@.len(),
            i <= n,
            v@ == s@.take(i as int),
        decreases n - i,
    {
        let c = s.get_char(i);
        v.push(c);
        i = i + 1;
        assert(v@ =~= s@.take(i as int));
    }
    assert(v@ =~= s@);
    v
}

/// Builds a string from a slice of characters.
pub fn string_of(v: &[char]) -> (s: String)
    ensures
        s@ == v@,
{
    let mut s = String::new();
    let mut i: usize = 0;
    while i < v.len()
        invariant
            i <= v@.len(),
            s@ == v@.take(i as int),
        decreases v@.len() - i,
    {
        push_char(&mut s, v[i]);
        i = i + 1;
        assert(s@ =~= v@.take(i as int));
    }
    assert(s@ =~= v@);
    s
}

/// Whether two string slices hold the same characters.
pub fn text_eq(a: &str, b: &str) -> (r: bool)
    ensures
        r == (a@ == b@),
{
    let x = String::from_str(a);
    let y = String::from_str(b);
    x == y
}

/// `s` without its trailing line breaks.
pub open spec fn trim_trailing_newlines(s: Seq<char>) -> Seq<char>
    decreases s.len(),
{
    if s.len() > 0 && s.last() == '\n' {
        trim_trailing_newlines(s.drop_last())
    } else {
        s
    }
}

/// `s` ending in exactly one line break.
pub open spec fn single_trailing_newline(s: Seq<char>) -> Seq<char> {
    trim_trailing_newlines(s).push('\n')
}

/// Trimming leaves no trailing line break and keeps a prefix of `s`.
pub proof fn lemma_trim_shape(s: Seq<char>)
    ensures
        trim_trailing_newlines(s).len() <= s.len(),
        trim_trailing_newlines(s) == s.take(trim_trailing_newlines(s).len() as int),
        trim_trailing_newlines(s).len() == 0 || trim_trailing_newlines(s).last() != '\n',
        forall|i: int| trim_trailing_newlines(s).len() <= i < s.len() ==> s[i] == '\n',
    decreases s.len(),
{
    if s.len() > 0 && s.last() == '\n' {
        lemma_trim_shape(s.drop_last());
        let t = trim_trailing_newlines(s.drop_last());
        assert(s.drop_last().take(t.len() as int) =~= s.take(t.len() as int));
        assert forall|i: int| t.len() <= i < s.len() implies s[i] == '\n' by {
            if i < s.len() - 1 {
                assert(s.drop_last()[i] == s[i]);
            }
        }
    } else {
        assert(s.take(s.len() as int) =~= s);
    }
}

/// Normalizing the end of a text twice changes nothing more.
pub proof fn lemma_single_trailing_newline_idempotent(s: Seq<char>)
    ensures
        single_trailing_newline(single_trailing_newline(s)) == single_trailing_newline(s),
        single_trailing_newline(s).last() == '\n',
{
    let t = trim_trailing_newlines(s);
    lemma_trim_shape(s);
    assert(t.push('\n').drop_last() =~= t);
    assert(trim_trailing_newlines(t.push('\n')) == trim_trailing_newlines(t));
}

/// Makes `output` end with exactly one line break.
pub fn ensure_single_trailing_newline(output: &mut String)
    ensures
        final(output)@ == single_trailing_newline(old(output)@),
{
    let cs = chars_of(output.as_str());
    let mut k: usize = cs.len();
    let ghost s = cs@;
    proof {
        assert(s.take(k as int) =~= s);
    }
    while k > 0 && cs[k - 1] == '\n'
        invariant
            k <= cs@.len(),
            cs@ == s,
            trim_trailing_newlines(s) == trim_trailing_newlines(s.take(k as int)),
        decreases k,
    {
        proof {
            assert(s.take(k as int).drop_last() =~= s.take(k - 1));
        }
        k = k - 1;
    }
    proof {
        assert(trim_trailing_newlines(s.take(k as int)) == s.take(k as int));
    }
    let mut kept: Vec<char> = Vec::new();
    let mut i: usize = 0;
    while i < k
        invariant
            k <= cs@.len(),
            cs@ == s,
            i <= k,
            kept@ == s.take(i as int),
        decreases k - i,
    {
        kept.push(cs[i]);
        i = i + 1;
        proof {
            assert(kept@ =~= s.take(i as int));
        }
    }
    let mut r = string_of(kept.as_slice());
    push_char(&mut r, '\n');
    *output = r;
}

/// The decimal digit character for `d` below ten.
pub open spec fn digit_char(d: int) -> char {
    ((48 + d) as u8) as char
}

/// The decimal text of a natural number, without leading zeros.
pub open spec fn decimal(n: nat) -> Seq<char>
    decreases n,
{
    if n < 10 {
        seq![digit_char(n as int)]
    } else {
        decimal(n / 10).push(digit_char((n % 10) as int))
    }
}

/// Renders a number in decimal.
pub fn decimal_text(n: u128) -> (r: String)
    ensures
        r@ == decimal(n as nat),
    decreases n,
{
    let d: u8 = (n % 10) as u8;
    let c = (48u8 + d) as char;
    if n < 10 {
        let mut s = String::new();
        push_char(&mut s, c);
        proof {
            assert(s@ =~= seq![digit_char(n as int)]);
        }
        s
    } else {
        let mut s = decimal_text(n / 10);
        push_char(&mut s, c);
        s
    }
}

} // verus!
