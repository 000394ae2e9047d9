//! Character-sequence operations on which the parsers of this crate are built,
//! each stated over `Seq<char>`.
use vstd::prelude::*;
use vstd::slice::slice_to_vec;

verus! {

broadcast use vstd::string::group_string_axioms;

/// Whether `pat` occurs in `s` at index `i`.
pub open spec fn occurs_at(s: Seq<char>, pat: Seq<char>, i: int) -> bool {
    0 <= i && i + pat.len() <= s.len() && s.subrange(i, i + pat.len()) == pat
}

/// The first index at or after `i` at which `pat` occurs in `s`.
pub open spec fn find_from(s: Seq<char>, pat: Seq<char>, i: int) -> Option<int>
    decreases s.len() + 1 - i,
{
    if i < 0 || i + pat.len() > s.len() {
        None
    } else if occurs_at(s, pat, i) {
        Some(i)
    } else {
        find_from(s, pat, i + 1)
    }
}

/// The first index at which `pat` occurs in `s`.
pub open spec fn find(s: Seq<char>, pat: Seq<char>) -> Option<int> {
    find_from(s, pat, 0)
}

pub open spec fn contains(s: Seq<char>, pat: Seq<char>) -> bool {
    find(s, pat) is Some
}

pub proof fn lemma_find_from_bounds(s: Seq<char>, pat: Seq<char>, i: int)
    ensures
        find_from(s, pat, i) matches Some(k) ==> i <= k && occurs_at(s, pat, k) && k + pat.len() <= s.len(),
    decreases s.len() + 1 - i,
{
    if !(i < 0 || i + pat.len() > s.len()) && !occurs_at(s, pat, i) {
        lemma_find_from_bounds(s, pat, i + 1);
    }
}

/// Unicode `White_Space`, as `char::is_whitespace` tests it.
pub open spec fn is_ws(c: char) -> bool {
    let u = c as u32;
    (0x09 <= u <= 0x0d) || u == 0x20 || u == 0x85 || u == 0xa0 || u == 0x1680 || (0x2000 <= u
        <= 0x200a) || u == 0x2028 || u == 0x2029 || u == 0x202f || u == 0x205f || u == 0x3000
}

pub fn is_whitespace(c: char) -> (r: bool)
    ensures
        r == is_ws(c),
{
    let u = c as u32;
    (0x09 <= u && u <= 0x0d) || u == 0x20 || u == 0x85 || u == 0xa0 || u == 0x1680 || (0x2000 <= u
        && u <= 0x200a) || u == 0x2028 || u == 0x2029 || u == 0x202f || u == 0x205f || u == 0x3000
}

/// The index of the first character at or after `i` that is not whitespace (or the length).
pub open spec fn skip_ws(s: Seq<char>, i: int) -> int
    decreases s.len() - i,
{
    if 0 <= i < s.len() && is_ws(s[i]) {
        skip_ws(s, i + 1)
    } else {
        i
    }
}

/// The index of the first whitespace character at or after `i` (or the length).
pub open spec fn skip_word(s: Seq<char>, i: int) -> int
    decreases s.len() - i,
{
    if 0 <= i < s.len() && !is_ws(s[i]) {
        skip_word(s, i + 1)
    } else {
        i
    }
}

/// The index just after the last character before `j` and at or after `lo` that is not whitespace.
pub open spec fn trim_end_at(s: Seq<char>, j: int, lo: int) -> int
    decreases j - lo,
{
    if lo < j && j <= s.len() && is_ws(s[j - 1]) {
        trim_end_at(s, j - 1, lo)
    } else {
        j
    }
}

/// `str::trim`: `s` without leading and trailing whitespace.
pub open spec fn trim(s: Seq<char>) -> Seq<char> {
    let a = skip_ws(s, 0);
    s.subrange(a, trim_end_at(s, s.len() as int, a))
}

/// `split_whitespace().next()`: the first maximal run of non-whitespace characters.
pub open spec fn first_word(s: Seq<char>) -> Option<Seq<char>> {
    let a = skip_ws(s, 0);
    if a >= s.len() {
        None
    } else {
        Some(s.subrange(a, skip_word(s, a)))
    }
}

/// `str::split(sep)` for a non-empty separator: the pieces between the occurrences of `sep`.
pub open spec fn split_seq(s: Seq<char>, sep: Seq<char>) -> Seq<Seq<char>>
    decreases s.len(),
{
    if sep.len() == 0 {
        seq![s]
    } else {
        match find(s, sep) {
            None => seq![s],
            Some(i) => {
                proof {
                    lemma_find_from_bounds(s, sep, 0);
                }
                seq![s.subrange(0, i)] + split_seq(s.subrange(i + sep.len(), s.len() as int), sep)
            },
        }
    }
}

/// `split(c).next()`: the characters before the first `c`, or all of `s`.
pub open spec fn before_char(s: Seq<char>, c: char) -> Seq<char> {
    match find(s, seq![c]) {
        Some(i) => s.subrange(0, i),
        None => s,
    }
}

/// A line without the `\r` of a `\r\n` ending.
pub open spec fn strip_cr(line: Seq<char>) -> Seq<char> {
    if line.len() > 0 && line.last() == '\r' {
        line.drop_last()
    } else {
        line
    }
}

/// `str::lines`: the pieces between `\n` characters, each without a
/// trailing `\r`; a final `\n` ends the last line rather than starting an
/// empty one.
pub open spec fn lines_seq(s: Seq<char>) -> Seq<Seq<char>>
    decreases s.len(),
{
    if s.len() == 0 {
        Seq::empty()
    } else {
        match find(s, seq!['\n']) {
            None => seq![s],
            Some(i) => {
                proof {
                    lemma_find_from_bounds(s, seq!['\n'], 0);
                }
                seq![strip_cr(s.subrange(0, i))] + lines_seq(s.subrange(i + 1, s.len() as int))
            },
        }
    }
}

/// The texts of a list of strings.
pub open spec fn texts(v: Seq<String>) -> Seq<Seq<char>> {
    v.map_values(|s: String| s@)
}

pub open spec fn char_seqs(v: Seq<Vec<char>>) -> Seq<Seq<char>> {
    v.map_values(|x: Vec<char>| x@)
}

/// The characters of `s`.
pub fn chars_of(s: &str) -> (r: Vec<char>)
    ensures
        r@ == s@,
{
    let mut v: Vec<char> = Vec::new();
    for c in it: s.chars()
        invariant
            it.seq() == s@,
            v@ == s@.take(it.index() as int),
    {
        v.push(c);
    }
    v
}

/// `String::push`: appends `c`.
#[verifier::external_body]
pub(crate) fn push_char(s: &mut String, c: char)
    ensures
        final(s)@ == old(s)@.push(c),
{
    s.push(c)
}

/// The string of the characters `cs`.
pub fn string_of(cs: &[char]) -> (r: String)
    ensures
        r@ == cs@,
{
    let mut s = String::new();
    let mut i: usize = 0;
    while i < cs.len()
        invariant
            i <= cs@.len(),
            s@ == cs@.subrange(0, i as int),
        decreases cs@.len() - i,
    {
        push_char(&mut s, cs[i]);
        assert(cs@.subrange(0, i + 1) =~= cs@.subrange(0, i as int).push(cs@[i as int]));
        i = i + 1;
    }
    assert(cs@.subrange(0, cs@.len() as int) =~= cs@);
    s
}

/// Whether `pat` occurs in `s` at `i`.
pub fn matches_at(s: &[char], pat: &[char], i: usize) -> (r: bool)
    ensures
        r == occurs_at(s@, pat@, i as int),
{
    if pat.len() > s.len() || i > s.len() - pat.len() {
        return false;
    }
    let mut k: usize = 0;
    while k < pat.len()
        invariant
            k <= pat@.len(),
            i + pat@.len() <= s@.len(),
            s@.len() <= usize::MAX,
            forall|j: int| 0 <= j < k ==> s@[i + j] == pat@[j],
        decreases pat@.len() - k,
    {
        if s[i + k] != pat[k] {
            assert(s@.subrange(i as int, i + pat@.len())[k as int] != pat@[k as int]);
            return false;
        }
        k = k + 1;
    }
    assert(s@.subrange(i as int, i + pat@.len()) =~= pat@);
    true
}

/// `str::find`: the first index at which `pat` occurs in `s`.
pub fn find_in(s: &[char], pat: &[char]) -> (r: Option<usize>)
    ensures
        r matches Some(k) ==> find(s@, pat@) == Some(k as int),
        r is None ==> find(s@, pat@) is None,
{
    if pat.len() == 0 {
        assert(s@.subrange(0, 0) =~= pat@);
        return Some(0);
    }
    if pat.len() > s.len() {
        return None;
    }
    let last = s.len() - pat.len();
    let mut i: usize = 0;
    while i <= last
        invariant
            pat@.len() > 0,
            last + pat@.len() == s@.len(),
            s@.len() <= usize::MAX,
            find_from(s@, pat@, 0) == find_from(s@, pat@, i as int),
        decreases last + 1 - i,
    {
        if matches_at(s, pat, i) {
            return Some(i);
        }
        i = i + 1;
    }
    None
}

/// `str::contains`.
pub fn contains_in(s: &[char], pat: &[char]) -> (r: bool)
    ensures
        r == contains(s@, pat@),
{
    find_in(s, pat).is_some()
}

/// `str::trim`.
pub fn trim_chars(s: &[char]) -> (r: Vec<char>)
    ensures
        r@ == trim(s@),
{
    let mut a: usize = 0;
    while a < s.len() && is_whitespace(s[a])
        invariant
            a <= s@.len(),
            skip_ws(s@, 0) == skip_ws(s@, a as int),
        decreases s@.len() - a,
    {
        a = a + 1;
    }
    let mut b: usize = s.len();
    while b > a && is_whitespace(s[b - 1])
        invariant
            a <= b <= s@.len(),
            trim_end_at(s@, s@.len() as int, a as int) == trim_end_at(s@, b as int, a as int),
        decreases b - a,
    {
        b = b - 1;
    }
    slice_to_vec(&s[a..b])
}

/// `split_whitespace().next()`.
pub fn first_word_of(s: &[char]) -> (r: Option<Vec<char>>)
    ensures
        r matches Some(w) ==> first_word(s@) == Some(w@),
        r is None ==> first_word(s@) is None,
{
    let mut a: usize = 0;
    while a < s.len() && is_whitespace(s[a])
        invariant
            a <= s@.len(),
            skip_ws(s@, 0) == skip_ws(s@, a as int),
        decreases s@.len() - a,
    {
        a = a + 1;
    }
    if a >= s.len() {
        return None;
    }
    let mut b: usize = a;
    while b < s.len() && !is_whitespace(s[b])
        invariant
            a <= b <= s@.len(),
            skip_word(s@, a as int) == skip_word(s@, b as int),
        decreases s@.len() - b,
    {
        b = b + 1;
    }
    Some(slice_to_vec(&s[a..b]))
}

/// `split(c).next()`.
pub fn before_char_of(s: &[char], c: char) -> (r: Vec<char>)
    ensures
        r@ == before_char(s@, c),
{
    let pat = [c];
    assert(pat@ =~= seq![c]);
    match find_in(s, &pat) {
        Some(i) => {
            proof {
                lemma_find_from_bounds(s@, seq![c], 0);
            }
            slice_to_vec(&s[0..i])
        },
        None => slice_to_vec(s),
    }
}

/// `str::split(sep)` for a non-empty separator.
pub fn split_by(s: &[char], sep: &[char]) -> (r: Vec<Vec<char>>)
    requires
        sep@.len() > 0,
    ensures
        char_seqs(r@) == split_seq(s@, sep@),
{
    let mut parts: Vec<Vec<char>> = Vec::new();
    let mut rest: Vec<char> = slice_to_vec(s);
    loop
        invariant
            sep@.len() > 0,
            char_seqs(parts@) + split_seq(rest@, sep@) == split_seq(s@, sep@),
        decreases rest@.len(),
    {
        let ghost old_parts = parts@;
        match find_in(rest.as_slice(), sep) {
            None => {
                parts.push(rest);
                assert(char_seqs(parts@) =~= char_seqs(old_parts) + split_seq(rest@, sep@));
                return parts;
            },
            Some(i) => {
                proof {
                    lemma_find_from_bounds(rest@, sep@, 0);
                }
                let rl = rest.len();
                let head = slice_to_vec(&rest.as_slice()[0..i]);
                let tail = slice_to_vec(&rest.as_slice()[i + sep.len()..rl]);
                let ghost r0 = rest@;
                parts.push(head);
                assert(char_seqs(parts@) =~= char_seqs(old_parts).push(head@));
                assert(split_seq(r0, sep@) == seq![head@] + split_seq(tail@, sep@));
                assert(char_seqs(parts@) + split_seq(tail@, sep@) =~= char_seqs(old_parts) + split_seq(r0, sep@));
                rest = tail;
            },
        }
    }
}

/// `str::lines`.
pub fn lines_of(s: &[char]) -> (r: Vec<Vec<char>>)
    ensures
        char_seqs(r@) == lines_seq(s@),
{
    let mut out: Vec<Vec<char>> = Vec::new();
    let mut rest: Vec<char> = slice_to_vec(s);
    let nl = ['\n'];
    assert(nl@ =~= seq!['\n']);
    while rest.len() > 0
        invariant
            nl@ == seq!['\n'],
            char_seqs(out@) + lines_seq(rest@) == lines_seq(s@),
        decreases rest@.len(),
    {
        let ghost old_out = out@;
        let ghost r0 = rest@;
        match find_in(rest.as_slice(), &nl) {
            None => {
                out.push(rest);
                assert(char_seqs(out@) =~= char_seqs(old_out) + lines_seq(r0));
                return out;
            },
            Some(i) => {
                proof {
                    lemma_find_from_bounds(rest@, seq!['\n'], 0);
                }
                let rl = rest.len();
                let mut line = slice_to_vec(&rest.as_slice()[0..i]);
                if line.len() > 0 && line[line.len() - 1] == '\r' {
                    line.pop();
                    assert(line@ == strip_cr(r0.subrange(0, i as int)));
                }
                let tail = slice_to_vec(&rest.as_slice()[i + 1..rl]);
                out.push(line);
                assert(char_seqs(out@) =~= char_seqs(old_out).push(line@));
                assert(char_seqs(out@) + lines_seq(tail@) =~= char_seqs(old_out) + lines_seq(r0));
                rest = tail;
            },
        }
    }
    assert(char_seqs(out@) + lines_seq(rest@) =~= char_seqs(out@));
    out
}

/// The decimal digits of `n`, most significant first, without leading zeros.
pub open spec fn decimal(n: nat) -> Seq<char>
    decreases n,
{
    if n < 10 {
        seq![(n + '0' as nat) as char]
    } else {
        decimal(n / 10).push(((n % 10) + '0' as nat) as char)
    }
}

/// The decimal text of `n`, as `format!("{}", n)` writes it.
pub fn decimal_of(n: u64) -> (r: String)
    ensures
        r@ == decimal(n as nat),
{
    let mut digits: Vec<char> = Vec::new();
    let mut m = n;
    loop
        invariant
            decimal(n as nat) == decimal(m as nat) + digits@.reverse(),
        decreases m,
    {
        if m < 10 {
            let c = char_of_digit(m);
            digits.push(c);
            assert(decimal(m as nat) =~= seq![c]);
            let out = string_of_reversed(&digits);
            assert(digits@.reverse() =~= decimal(n as nat));
            return out;
        }
        let c = char_of_digit(m % 10);
        let ghost before = digits@;
        digits.push(c);
        assert(decimal(m as nat) == decimal((m / 10) as nat).push(c));
        assert(digits@.reverse() =~= seq![c] + before.reverse());
        assert(decimal(m as nat) + before.reverse() =~= decimal((m / 10) as nat) + digits@.reverse());
        m = m / 10;
    }
}

/// The string of the characters of `digits` in reverse order.
fn string_of_reversed(digits: &Vec<char>) -> (out: String)
    ensures
        out@ == digits@.reverse(),
{
    let mut out = String::new();
    let mut k = digits.len();
    while k > 0
        invariant
            k <= digits@.len(),
            out@ + digits@.subrange(0, k as int).reverse() == digits@.reverse(),
        decreases k,
    {
        k = k - 1;
        let ghost before = out@;
        push_char(&mut out, digits[k]);
        assert(digits@.subrange(0, k + 1).reverse() =~= seq![digits@[k as int]] + digits@.subrange(0, k as int).reverse());
        assert(out@ + digits@.subrange(0, k as int).reverse() =~= before + digits@.subrange(0, k + 1).reverse());
    }
    assert(digits@.subrange(0, 0).reverse() =~= Seq::<char>::empty());
    assert(out@ =~= digits@.reverse());
    out
}

fn char_of_digit(d: u64) -> (c: char)
    requires
        d < 10,
    ensures
        c == ((d + '0' as nat) as char),
{
    if d == 0 { '0' } else if d == 1 { '1' } else if d == 2 { '2' } else if d == 3 { '3' } else if d == 4 { '4' } else if d == 5 { '5' } else if d == 6 { '6' } else if d == 7 { '7' } else if d == 8 { '8' } else { '9' }
}

} // verus!
