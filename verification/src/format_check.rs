//! Checks of log format strings.
use vstd::prelude::*;
use crate::text::chars_of;

verus! {

/// The number of `{` placeholders in a format string: a `{` followed by a
/// character other than `{` opens a placeholder, `{{` is an escaped brace,
/// and a `{` at the very end counts for nothing.
pub open spec fn placeholders(s: Seq<char>) -> nat
    decreases s.len(),
{
    if s.len() == 0 {
        0
    } else if s[0] == '{' && s.len() >= 2 {
        if s[1] != '{' {
            1 + placeholders(s.drop_first())
        } else {
            placeholders(s.subrange(2, s.len() as int))
        }
    } else {
        placeholders(s.drop_first())
    }
}

pub proof fn lemma_placeholders_bound(s: Seq<char>)
    ensures
        placeholders(s) <= s.len(),
    decreases s.len(),
{
    if s.len() > 0 {
        if s[0] == '{' && s.len() >= 2 && s[1] == '{' {
            lemma_placeholders_bound(s.subrange(2, s.len() as int));
        } else {
            lemma_placeholders_bound(s.drop_first());
        }
    }
}

/// Counts the placeholders of a format string.
pub fn count_placeholders(format_str: &str) -> (r: usize)
    ensures
        r == placeholders(format_str@),
{
    let cs = chars_of(format_str);
    let n = cs.len();
    let mut count: usize = 0;
    let mut i: usize = 0;
    proof {
        lemma_placeholders_bound(cs@);
    }
    assert(cs@.subrange(0, n as int) =~= cs@);
    while i < n
        invariant
            n == cs@.len(),
            i <= n,
            count + placeholders(cs@.subrange(i as int, n as int)) == placeholders(cs@),
            placeholders(cs@) <= n,
        decreases n - i,
    {
        let ghost rest = cs@.subrange(i as int, n as int);
        if cs[i] == '{' && i + 1 < n {
            if cs[i + 1] != '{' {
                assert(rest.drop_first() =~= cs@.subrange(i + 1, n as int));
                count = count + 1;
                i = i + 1;
            } else {
                assert(rest.subrange(2, rest.len() as int) =~= cs@.subrange(i + 2, n as int));
                i = i + 2;
            }
        } else {
            assert(rest.drop_first() =~= cs@.subrange(i + 1, n as int));
            i = i + 1;
        }
    }
    count
}

/// An escaped brace `{{` is two literal characters: it opens no placeholder
/// and the scan goes on right after it, whatever follows.
pub proof fn lemma_escaped_brace(t: Seq<char>)
    ensures
        placeholders(seq!['{', '{'] + t) == placeholders(t),
{
    let s = seq!['{', '{'] + t;
    assert(s.subrange(2, s.len() as int) =~= t);
}

/// A `{` followed by any character other than `{` opens one placeholder,
/// and that next character is scanned as usual.
pub proof fn lemma_open_brace(c: char, t: Seq<char>)
    requires
        c != '{',
    ensures
        placeholders(seq!['{', c] + t) == 1 + placeholders(seq![c] + t),
{
    let s = seq!['{', c] + t;
    assert(s.drop_first() =~= seq![c] + t);
}

/// Any character other than `{` opens nothing.
pub proof fn lemma_plain_char(c: char, t: Seq<char>)
    requires
        c != '{',
    ensures
        placeholders(seq![c] + t) == placeholders(t),
{
    let s = seq![c] + t;
    assert(s.drop_first() =~= t);
}

/// A `{` at the very end of the string opens nothing, and the empty string
/// holds no placeholder.
pub proof fn lemma_trailing_brace()
    ensures
        placeholders(seq!['{']) == 0,
        placeholders(Seq::<char>::empty()) == 0,
{
    let s = seq!['{'];
    assert(s.len() == 1);
    assert(s.drop_first() =~= Seq::<char>::empty());
    assert(placeholders(s.drop_first()) == 0);
}

/// A value wrapped in literal braces, `{{{}}}`, holds one placeholder: the
/// escaped pair is two characters, so the third `{` opens the placeholder.
pub proof fn lemma_braced_placeholder(t: Seq<char>)
    ensures
        placeholders(seq!['{', '{', '{', '}'] + t) == 1 + placeholders(seq!['}'] + t),
{
    lemma_escaped_brace(seq!['{', '}'] + t);
    assert(seq!['{', '{'] + (seq!['{', '}'] + t) =~= seq!['{', '{', '{', '}'] + t);
    lemma_open_brace('}', t);
}

} // verus!
