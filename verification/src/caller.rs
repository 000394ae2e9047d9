//! Parsing of backtraces: the calling class and the frames of a stack trace.
use vstd::prelude::*;
use crate::text::{
    before_char, before_char_of, char_seqs, chars_of, contains, contains_in, find, find_in,
    first_word, first_word_of, lemma_find_from_bounds, lines_of, lines_seq, split_by, split_seq,
    string_of, trim, trim_chars,
};

verus! {

broadcast use vstd::string::group_string_axioms;

/// One frame of a stack trace.
#[derive(Debug, Clone, PartialEq)]
pub struct StackTraceElement {
    pub class_name: Option<String>,
    pub method_name: Option<String>,
    pub file_name: Option<String>,
    pub line_number: Option<u32>,
}

pub struct ElementView {
    pub class_name: Option<Seq<char>>,
    pub method_name: Option<Seq<char>>,
    pub file_name: Option<Seq<char>>,
    pub line_number: Option<u32>,
}

pub open spec fn opt_view(o: Option<String>) -> Option<Seq<char>> {
    match o {
        Some(s) => Some(s@),
        None => None,
    }
}

impl View for StackTraceElement {
    type V = ElementView;

    open spec fn view(&self) -> ElementView {
        ElementView {
            class_name: opt_view(self.class_name),
            method_name: opt_view(self.method_name),
            file_name: opt_view(self.file_name),
            line_number: self.line_number,
        }
    }
}

/// The part of a trimmed frame line after `": "`, else after `"at "`; when
/// neither occurs, the whole line if `whole` holds, else nothing.
pub open spec fn function_part(t: Seq<char>, whole: bool) -> Option<Seq<char>> {
    match find(t, ": "@) {
        Some(i) => Some(t.subrange(i + 2, t.len() as int)),
        None => match find(t, "at "@) {
            Some(i) => Some(t.subrange(i + 3, t.len() as int)),
            None => if whole {
                Some(t)
            } else {
                None
            },
        },
    }
}

/// The class of a frame line: of the path `module::Class::method` found in
/// it, the next-to-last segment without generic arguments.
pub open spec fn class_from_line(line: Seq<char>) -> Option<Seq<char>> {
    match first_word(function_part(trim(line), true).unwrap()) {
        None => None,
        Some(w) => {
            let parts = split_seq(w, "::"@);
            if parts.len() >= 2 {
                Some(before_char(parts[parts.len() - 2], '<'))
            } else {
                None
            }
        },
    }
}

/// A line of a frame that is neither this library's nor the standard library's.
pub open spec fn is_caller_line(line: Seq<char>) -> bool {
    &&& contains(line, "::"@)
    &&& !contains(line, "scribe::"@)
    &&& !contains(line, "std::"@)
    &&& !contains(line, "core::"@)
    &&& !contains(line, "alloc::"@)
    &&& !contains(line, "backtrace::"@)
}

/// The class of the first caller line of `lines` that has one.
pub open spec fn first_caller_class(lines: Seq<Seq<char>>) -> Option<Seq<char>>
    decreases lines.len(),
{
    if lines.len() == 0 {
        None
    } else if is_caller_line(lines[0]) && class_from_line(lines[0]) is Some {
        class_from_line(lines[0])
    } else {
        first_caller_class(lines.drop_first())
    }
}

/// The decimal number written in `d`, which holds digits only.
pub open spec fn digits_value(d: Seq<char>) -> nat
    decreases d.len(),
{
    if d.len() == 0 {
        0
    } else {
        digits_value(d.drop_last()) * 10 + (d.last() as nat - '0' as nat) as nat
    }
}

pub open spec fn all_digits(d: Seq<char>) -> bool {
    forall|i: int| 0 <= i < d.len() ==> '0' <= #[trigger] d[i] <= '9'
}

/// `u32::from_str`: an optional `+` then one or more ASCII digits whose value fits in `u32`.
pub open spec fn parse_u32_spec(s: Seq<char>) -> Option<u32> {
    let d = if s.len() > 0 && s[0] == '+' {
        s.drop_first()
    } else {
        s
    };
    if d.len() == 0 || !all_digits(d) || digits_value(d) > u32::MAX {
        None
    } else {
        Some(digits_value(d) as u32)
    }
}

/// The file name and line number of a `file:line[:column]` path.
pub open spec fn file_path_info(path: Seq<char>) -> (Option<Seq<char>>, Option<u32>) {
    let parts = split_seq(path, ":"@);
    (Some(parts[0]), if parts.len() >= 2 {
        parse_u32_spec(parts[1])
    } else {
        None
    })
}

/// Whether reading the file information of `line` stays within the line:
/// it does unless the line's first `)` comes before its first `(` (with no `at ./`).
pub open spec fn file_info_defined(line: Seq<char>) -> bool {
    find(line, "at ./"@) is None && find(line, "("@) is Some && find(line, ")"@) is Some ==> find(
        line,
        "("@,
    ).unwrap() < find(line, ")"@).unwrap()
}

/// The file information of a frame line: after `at ./` (keeping the `./`),
/// else between the first `(` and the first `)`.
pub open spec fn file_info(line: Seq<char>) -> (Option<Seq<char>>, Option<u32>) {
    match find(line, "at ./"@) {
        Some(st) => file_path_info(line.subrange(st + 3, line.len() as int)),
        None => match find(line, "("@) {
            Some(st) => match find(line, ")"@) {
                Some(e) => file_path_info(line.subrange(st + 1, e)),
                None => (None, None),
            },
            None => (None, None),
        },
    }
}

/// The frame described by one line, if the line has a function part.
pub open spec fn stack_line(line: Seq<char>) -> Option<ElementView> {
    let t = trim(line);
    match function_part(t, false) {
        None => None,
        Some(fp) => match first_word(fp) {
            None => None,
            Some(w) => {
                let parts = split_seq(w, "::"@);
                let info = file_info(t);
                Some(
                    if parts.len() >= 2 {
                        ElementView {
                            class_name: Some(before_char(parts[parts.len() - 2], '<')),
                            method_name: Some(before_char(parts.last(), '<')),
                            file_name: info.0,
                            line_number: info.1,
                        }
                    } else {
                        ElementView {
                            class_name: None,
                            method_name: None,
                            file_name: info.0,
                            line_number: info.1,
                        }
                    },
                )
            },
        },
    }
}

/// The frames of the lines that describe one, in order.
pub open spec fn stack_lines(lines: Seq<Seq<char>>) -> Seq<ElementView>
    decreases lines.len(),
{
    if lines.len() == 0 {
        Seq::empty()
    } else {
        match stack_line(lines[0]) {
            Some(e) => seq![e] + stack_lines(lines.drop_first()),
            None => stack_lines(lines.drop_first()),
        }
    }
}

pub open spec fn stack_trace_defined(backtrace: Seq<char>) -> bool {
    forall|i: int| 0 <= i < lines_seq(backtrace).len() ==> file_info_defined(
        trim(#[trigger] lines_seq(backtrace)[i]),
    )
}

/// `Backtrace::force_capture`: a backtrace of the current thread, one frame
/// per line as its `Display` output writes it.
#[verifier::external_body]
pub(crate) fn capture_backtrace() -> String {
    format!("{}", std::backtrace::Backtrace::force_capture())
}

/// The part of a trimmed line after `": "`, else after `"at "`, else (if `whole`) all of it.
fn function_part_of(t: &[char], whole: bool) -> (r: Option<Vec<char>>)
    ensures
        r matches Some(v) ==> function_part(t@, whole) == Some(v@),
        r is None ==> function_part(t@, whole) is None,
{
    let colon = chars_of(": ");
    let at = chars_of("at ");
    proof {
        reveal_strlit(": ");
        reveal_strlit("at ");
        lemma_find_from_bounds(t@, ": "@, 0);
        lemma_find_from_bounds(t@, "at "@, 0);
    }
    let n = t.len();
    match find_in(t, colon.as_slice()) {
        Some(i) => Some(vstd::slice::slice_to_vec(&t[i + 2..n])),
        None => match find_in(t, at.as_slice()) {
            Some(i) => Some(vstd::slice::slice_to_vec(&t[i + 3..n])),
            None => if whole {
                Some(vstd::slice::slice_to_vec(t))
            } else {
                None
            },
        },
    }
}

/// The segments of a `::` path.
fn path_segments(w: &[char]) -> (r: Vec<Vec<char>>)
    ensures
        char_seqs(r@) == split_seq(w@, "::"@),
{
    let sep = chars_of("::");
    proof {
        reveal_strlit("::");
    }
    split_by(w, sep.as_slice())
}

/// Extracts the class name from one backtrace line.
pub fn extract_class_from_line(line: &str) -> (r: Option<String>)
    ensures
        opt_view(r) == class_from_line(line@),
{
    let cs = chars_of(line);
    let t = trim_chars(cs.as_slice());
    let fp = match function_part_of(t.as_slice(), true) {
        Some(fp) => fp,
        None => {
            return None;
        },
    };
    let w = match first_word_of(fp.as_slice()) {
        Some(w) => w,
        None => {
            return None;
        },
    };
    let parts = path_segments(w.as_slice());
    if parts.len() >= 2 {
        assert(parts@[parts@.len() - 2]@ == char_seqs(parts@)[parts@.len() - 2]);
        let class = before_char_of(parts[parts.len() - 2].as_slice(), '<');
        Some(string_of(class.as_slice()))
    } else {
        None
    }
}

fn is_caller_line_exec(line: &[char]) -> (r: bool)
    ensures
        r == is_caller_line(line@),
{
    contains_in(line, chars_of("::").as_slice()) && !contains_in(line, chars_of("scribe::").as_slice())
        && !contains_in(line, chars_of("std::").as_slice()) && !contains_in(line, chars_of("core::").as_slice())
        && !contains_in(line, chars_of("alloc::").as_slice()) && !contains_in(
        line,
        chars_of("backtrace::").as_slice(),
    )
}

/// The class of the first frame line of `backtrace` that belongs to neither
/// this library nor the standard library.
pub fn parse_calling_class(backtrace: &str) -> (r: Option<String>)
    ensures
        opt_view(r) == first_caller_class(lines_seq(backtrace@)),
{
    let cs = chars_of(backtrace);
    let lines = lines_of(cs.as_slice());
    let ghost all = lines_seq(backtrace@);
    assert(all.subrange(0, all.len() as int) =~= all);
    let mut i: usize = 0;
    while i < lines.len()
        invariant
            i <= lines@.len(),
            char_seqs(lines@) == all,
            all == lines_seq(backtrace@),
            first_caller_class(all) == first_caller_class(all.subrange(i as int, all.len() as int)),
        decreases lines@.len() - i,
    {
        let ghost rest = all.subrange(i as int, all.len() as int);
        assert(rest[0] == lines@[i as int]@);
        assert(rest.drop_first() =~= all.subrange(i + 1, all.len() as int));
        let line = lines[i].as_slice();
        if is_caller_line_exec(line) {
            let s = string_of(line);
            let c = extract_class_from_line(s.as_str());
            if c.is_some() {
                assert(is_caller_line(rest[0]));
                assert(class_from_line(rest[0]) is Some);
                assert(first_caller_class(rest) == class_from_line(rest[0]));
                return c;
            }
        }
        i = i + 1;
    }
    None
}

/// The class of the caller, read from a backtrace of the current thread.
pub fn get_calling_class() -> (r: Option<String>)
    ensures
        exists|backtrace: Seq<char>| opt_view(r) == first_caller_class(lines_seq(backtrace)),
{
    let bt = capture_backtrace();
    let r = parse_calling_class(bt.as_str());
    assert(opt_view(r) == first_caller_class(lines_seq(bt@)));
    r
}

fn parse_digits(d: &[char]) -> (r: Option<u32>)
    requires
        d@.len() > 0,
    ensures
        r == (if !all_digits(d@) || digits_value(d@) > u32::MAX {
            None
        } else {
            Some(digits_value(d@) as u32)
        }),
{
    let mut i: usize = 0;
    while i < d.len()
        invariant
            i <= d@.len(),
            forall|j: int| 0 <= j < i ==> '0' <= #[trigger] d@[j] <= '9',
        decreases d@.len() - i,
    {
        if !('0' <= d[i] && d[i] <= '9') {
            return None;
        }
        i = i + 1;
    }
    let mut acc: u64 = 0;
    let mut k: usize = 0;
    while k < d.len()
        invariant
            k <= d@.len(),
            all_digits(d@),
            acc == digits_value(d@.subrange(0, k as int)),
            acc <= u32::MAX,
        decreases d@.len() - k,
    {
        let digit = (d[k] as u32 - '0' as u32) as u64;
        assert(d@.subrange(0, k + 1).drop_last() =~= d@.subrange(0, k as int));
        let next = acc * 10 + digit;
        if next > 0xffff_ffff {
            proof {
                lemma_digits_value_prefix(d@, k + 1);
            }
            assert(d@.subrange(0, d@.len() as int) =~= d@);
            return None;
        }
        acc = next;
        k = k + 1;
    }
    assert(d@.subrange(0, d@.len() as int) =~= d@);
    Some(acc as u32)
}

/// A number grows as digits are appended to it.
proof fn lemma_digits_value_prefix(d: Seq<char>, k: int)
    requires
        0 <= k <= d.len(),
        all_digits(d),
    ensures
        digits_value(d.subrange(0, k)) <= digits_value(d),
    decreases d.len() - k,
{
    if k < d.len() {
        lemma_digits_value_prefix(d, k + 1);
        assert(d.subrange(0, k + 1).drop_last() =~= d.subrange(0, k));
        assert(d.subrange(0, k + 1).last() == d[k]);
    } else {
        assert(d.subrange(0, k) =~= d);
    }
}

/// `u32::from_str` on a sequence of characters.
pub fn parse_u32(s: &[char]) -> (r: Option<u32>)
    ensures
        r == parse_u32_spec(s@),
{
    let n = s.len();
    let d = if n > 0 && s[0] == '+' {
        &s[1..n]
    } else {
        s
    };
    assert(s@.len() > 0 && s@[0] == '+' ==> d@ =~= s@.drop_first());
    if d.len() == 0 {
        return None;
    }
    parse_digits(d)
}

/// Reads the file name and the line number of a `file:line[:column]` path.
pub fn parse_file_path(path: &str) -> (r: (Option<String>, Option<u32>))
    ensures
        (opt_view(r.0), r.1) == file_path_info(path@),
{
    let cs = chars_of(path);
    let sep = chars_of(":");
    proof {
        reveal_strlit(":");
    }
    let parts = split_by(cs.as_slice(), sep.as_slice());
    proof {
        lemma_split_nonempty(cs@, ":"@);
    }
    assert(parts@[0]@ == char_seqs(parts@)[0]);
    let file_name = Some(string_of(parts[0].as_slice()));
    let line_number = if parts.len() >= 2 {
        assert(parts@[1]@ == char_seqs(parts@)[1]);
        parse_u32(parts[1].as_slice())
    } else {
        None
    };
    (file_name, line_number)
}

pub proof fn lemma_split_nonempty(s: Seq<char>, sep: Seq<char>)
    ensures
        split_seq(s, sep).len() >= 1,
    decreases s.len(),
{
    if sep.len() > 0 {
        if let Some(i) = find(s, sep) {
            lemma_find_from_bounds(s, sep, 0);
            lemma_split_nonempty(s.subrange(i + sep.len(), s.len() as int), sep);
        }
    }
}

fn file_info_of(line: &[char]) -> (r: (Option<String>, Option<u32>))
    requires
        file_info_defined(line@),
    ensures
        (opt_view(r.0), r.1) == file_info(line@),
{
    let at = chars_of("at ./");
    let open = chars_of("(");
    let close = chars_of(")");
    proof {
        reveal_strlit("at ./");
        lemma_find_from_bounds(line@, "at ./"@, 0);
        lemma_find_from_bounds(line@, "("@, 0);
        lemma_find_from_bounds(line@, ")"@, 0);
    }
    let n = line.len();
    if let Some(start) = find_in(line, at.as_slice()) {
        let rest = string_of(&line[start + 3..n]);
        return parse_file_path(rest.as_str());
    }
    if let Some(start) = find_in(line, open.as_slice()) {
        if let Some(end) = find_in(line, close.as_slice()) {
            let part = string_of(&line[start + 1..end]);
            return parse_file_path(part.as_str());
        }
    }
    (None, None)
}

/// Reads the file name and line number that a frame line gives, as
/// `at ./file:line:column` or `(file:line)`.
pub fn extract_file_info(line: &str) -> (r: (Option<String>, Option<u32>))
    requires
        file_info_defined(line@),
    ensures
        (opt_view(r.0), r.1) == file_info(line@),
{
    let cs = chars_of(line);
    file_info_of(cs.as_slice())
}

/// Parses one frame line into its class, method, file and line number.
pub fn parse_stack_line(line: &str) -> (r: Option<StackTraceElement>)
    requires
        file_info_defined(trim(line@)),
    ensures
        match r {
            Some(e) => stack_line(line@) == Some(e@),
            None => stack_line(line@) is None,
        },
{
    let cs = chars_of(line);
    let t = trim_chars(cs.as_slice());
    let fp = match function_part_of(t.as_slice(), false) {
        Some(fp) => fp,
        None => {
            return None;
        },
    };
    let w = match first_word_of(fp.as_slice()) {
        Some(w) => w,
        None => {
            return None;
        },
    };
    let parts = path_segments(w.as_slice());
    let (class_name, method_name) = if parts.len() >= 2 {
        let m = parts.len() - 1;
        assert(parts@[m as int]@ == char_seqs(parts@)[m as int]);
        assert(parts@[m - 1]@ == char_seqs(parts@)[m - 1]);
        let method = before_char_of(parts[m].as_slice(), '<');
        let class = before_char_of(parts[m - 1].as_slice(), '<');
        (Some(string_of(class.as_slice())), Some(string_of(method.as_slice())))
    } else {
        (None, None)
    };
    let (file_name, line_number) = file_info_of(t.as_slice());
    Some(StackTraceElement { class_name, method_name, file_name, line_number })
}

/// Parses every frame line of a backtrace, in order.
pub fn parse_stack_trace(backtrace: &str) -> (r: Vec<StackTraceElement>)
    requires
        stack_trace_defined(backtrace@),
    ensures
        r@.map_values(|e: StackTraceElement| e@) == stack_lines(lines_seq(backtrace@)),
{
    let cs = chars_of(backtrace);
    let lines = lines_of(cs.as_slice());
    let ghost all = lines_seq(backtrace@);
    assert(all.subrange(0, all.len() as int) =~= all);
    let mut out: Vec<StackTraceElement> = Vec::new();
    assert(out@.map_values(|e: StackTraceElement| e@) + stack_lines(all) =~= stack_lines(all));
    let mut i: usize = 0;
    while i < lines.len()
        invariant
            i <= lines@.len(),
            char_seqs(lines@) == all,
            stack_trace_defined(backtrace@),
            all == lines_seq(backtrace@),
            out@.map_values(|e: StackTraceElement| e@) + stack_lines(all.subrange(i as int, all.len() as int))
                == stack_lines(all),
        decreases lines@.len() - i,
    {
        let ghost rest = all.subrange(i as int, all.len() as int);
        let ghost before = out@;
        assert(rest[0] == lines@[i as int]@);
        assert(rest.drop_first() =~= all.subrange(i + 1, all.len() as int));
        let s = string_of(lines[i].as_slice());
        assert(file_info_defined(trim(all[i as int])));
        match parse_stack_line(s.as_str()) {
            Some(e) => {
                out.push(e);
                assert(out@.map_values(|e: StackTraceElement| e@) =~= before.map_values(
                    |e: StackTraceElement| e@,
                ).push(e@));
                assert(out@.map_values(|e: StackTraceElement| e@) + stack_lines(rest.drop_first())
                    =~= before.map_values(|e: StackTraceElement| e@) + stack_lines(rest));
            },
            None => {},
        }
        i = i + 1;
    }
    assert(all.subrange(i as int, all.len() as int) =~= Seq::<Seq<char>>::empty());
    assert(out@.map_values(|e: StackTraceElement| e@) + Seq::<ElementView>::empty() =~= out@.map_values(
        |e: StackTraceElement| e@,
    ));
    out
}

/// Whether every line of a backtrace can be read without leaving the line.
fn stack_trace_readable(backtrace: &str) -> (r: bool)
    ensures
        r == stack_trace_defined(backtrace@),
{
    let cs = chars_of(backtrace);
    let lines = lines_of(cs.as_slice());
    let at = chars_of("at ./");
    let open = chars_of("(");
    let close = chars_of(")");
    let mut i: usize = 0;
    while i < lines.len()
        invariant
            i <= lines@.len(),
            char_seqs(lines@) == lines_seq(backtrace@),
            at@ == "at ./"@,
            open@ == "("@,
            close@ == ")"@,
            forall|j: int| 0 <= j < i ==> file_info_defined(trim(#[trigger] lines_seq(backtrace@)[j])),
        decreases lines@.len() - i,
    {
        assert(lines_seq(backtrace@)[i as int] == lines@[i as int]@);
        let t = trim_chars(lines[i].as_slice());
        proof {
            reveal_strlit("(");
            reveal_strlit(")");
            lemma_find_from_bounds(t@, "("@, 0);
            lemma_find_from_bounds(t@, ")"@, 0);
        }
        if find_in(t.as_slice(), at.as_slice()).is_none() {
            if let Some(s) = find_in(t.as_slice(), open.as_slice()) {
                if let Some(e) = find_in(t.as_slice(), close.as_slice()) {
                    if e < s {
                        assert(!file_info_defined(trim(lines_seq(backtrace@)[i as int])));
                        return false;
                    }
                    assert(t@.subrange(s as int, s + 1)[0] == t@[s as int]);
                    assert(t@.subrange(e as int, e + 1)[0] == t@[e as int]);
                    assert(s != e);
                }
            }
        }
        assert(file_info_defined(t@));
        i = i + 1;
    }
    true
}

/// The frames of a backtrace of the current thread. A backtrace with a
/// line whose first `)` comes before its first `(` yields no frames.
pub fn get_stack_trace() -> (r: Vec<StackTraceElement>)
    ensures
        exists|backtrace: Seq<char>|
            if stack_trace_defined(backtrace) {
                r@.map_values(|e: StackTraceElement| e@) == stack_lines(lines_seq(backtrace))
            } else {
                r@.len() == 0
            },
{
    let bt = capture_backtrace();
    let r = if stack_trace_readable(bt.as_str()) {
        parse_stack_trace(bt.as_str())
    } else {
        Vec::new()
    };
    assert(if stack_trace_defined(bt@) {
        r@.map_values(|e: StackTraceElement| e@) == stack_lines(lines_seq(bt@))
    } else {
        r@.len() == 0
    });
    r
}

/// Whether `line` is a caller line with a class.
pub open spec fn gives_class(line: Seq<char>) -> bool {
    is_caller_line(line) && class_from_line(line) is Some
}

/// The calling class is that of the first caller line in backtrace order
/// (the innermost caller): whatever lines follow it play no part, and the
/// lines before it are ones with no caller class.
pub proof fn lemma_first_caller_class_is_first(pre: Seq<Seq<char>>, line: Seq<char>, post: Seq<Seq<char>>)
    requires
        forall|i: int| 0 <= i < pre.len() ==> !gives_class(#[trigger] pre[i]),
        gives_class(line),
    ensures
        first_caller_class(pre + seq![line] + post) == class_from_line(line),
    decreases pre.len(),
{
    let all = pre + seq![line] + post;
    if pre.len() == 0 {
        assert(all[0] == line);
    } else {
        let rest = pre.drop_first();
        assert forall|i: int| 0 <= i < rest.len() implies !gives_class(#[trigger] rest[i]) by {
            assert(rest[i] == pre[i + 1]);
        }
        lemma_first_caller_class_is_first(rest, line, post);
        assert(all[0] == pre[0]);
        assert(!gives_class(pre[0]));
        assert(all.drop_first() =~= rest + seq![line] + post);
    }
}

/// Without a caller line that has a class, there is no calling class.
pub proof fn lemma_no_caller_class(lines: Seq<Seq<char>>)
    requires
        forall|i: int| 0 <= i < lines.len() ==> !gives_class(#[trigger] lines[i]),
    ensures
        first_caller_class(lines) is None,
    decreases lines.len(),
{
    if lines.len() > 0 {
        let rest = lines.drop_first();
        assert forall|i: int| 0 <= i < rest.len() implies !gives_class(#[trigger] rest[i]) by {
            assert(rest[i] == lines[i + 1]);
        }
        assert(!gives_class(lines[0]));
        lemma_no_caller_class(rest);
    }
}

} // verus!
