//! Log sinks: extensions that receive every log entry, and their registry.
use vstd::prelude::*;
use std::io::Write;
use crate::error::push_str;
use crate::storage::frame::LogLevel;
use crate::caller::opt_view;
use crate::text::{
    char_seqs, chars_of, contains, contains_in, find, find_in, lemma_find_from_bounds, lines_of, lines_seq,
    split_by, split_seq, string_of,
};

verus! {

broadcast use vstd::string::group_string_axioms;

/// A receiver of log entries.
pub trait LogSink: Send + Sync {
    /// Receives one log entry.
    fn log(&self, level: LogLevel, tag: Option<&str>, message: &str, thread: Option<&str>);

    /// Whether the sink wants entries of this level and tag; all, unless the sink says otherwise.
    fn is_loggable(&self, level: LogLevel, tag: Option<&str>) -> (r: bool)
        default_ensures
            r,
    {
        true
    }
}

/// The name of a level, as its `Debug` output shows it.
pub open spec fn level_name(level: LogLevel) -> Seq<char> {
    match level {
        LogLevel::Verbose => "Verbose"@,
        LogLevel::Debug => "Debug"@,
        LogLevel::Info => "Info"@,
        LogLevel::Warn => "Warn"@,
        LogLevel::Error => "Error"@,
    }
}

pub fn level_name_of(level: LogLevel) -> (r: &'static str)
    ensures
        r@ == level_name(level),
{
    match level {
        LogLevel::Verbose => "Verbose",
        LogLevel::Debug => "Debug",
        LogLevel::Info => "Info",
        LogLevel::Warn => "Warn",
        LogLevel::Error => "Error",
    }
}

/// Whether `c` has the Unicode `Uppercase` property, as `char::is_uppercase` tests it.
pub uninterp spec fn char_is_uppercase(c: char) -> bool;

/// `char::is_uppercase`; for ASCII characters it holds exactly of `A` to `Z`.
#[verifier::external_body]
fn is_uppercase(c: char) -> (r: bool)
    ensures
        r == char_is_uppercase(c),
        (c as u32) < 128 ==> (r <==> ('A' <= c && c <= 'Z')),
{
    c.is_uppercase()
}

/// Writes one line to the standard output.
#[verifier::external_body]
fn print_line(line: &str) {
    let _ = writeln!(std::io::stdout(), "{}", line);
}

/// Whether `c` is an uppercase letter: for ASCII exactly `A` to `Z`, beyond
/// ASCII as the Unicode `Uppercase` property says.
pub open spec fn uppercase_char(c: char) -> bool {
    if (c as u32) < 128 {
        'A' <= c && c <= 'Z'
    } else {
        char_is_uppercase(c)
    }
}

/// The class of a backtrace line `... at module::Class::method ...`: the
/// next-to-last segment of the path after ` at `, if it starts with an
/// uppercase letter.
pub open spec fn class_name_in(line: Seq<char>) -> Option<Seq<char>> {
    match find(line, " at "@) {
        None => None,
        Some(p) => {
            let after = line.subrange(p + 4, line.len() as int);
            let end = match find(after, seq![' ']) {
                Some(e) => e,
                None => match find(after, seq!['(']) {
                    Some(e) => e,
                    None => after.len() as int,
                },
            };
            let parts = split_seq(after.subrange(0, end), "::"@);
            if parts.len() >= 2 {
                let pc = parts[parts.len() - 2];
                if pc.len() > 0 && uppercase_char(pc[0]) {
                    Some(pc)
                } else {
                    None
                }
            } else {
                None
            }
        },
    }
}

/// Extracts a class name from a backtrace line of the form `at module::Class::method`.
pub fn extract_class_name(line: &str) -> (r: Option<String>)
    ensures
        match r {
            Some(s) => class_name_in(line@) == Some(s@),
            None => class_name_in(line@) is None,
        },
{
    let cs = chars_of(line);
    let at = chars_of(" at ");
    proof {
        reveal_strlit(" at ");
        reveal_strlit("::");
        lemma_find_from_bounds(cs@, " at "@, 0);
    }
    let p = match find_in(cs.as_slice(), at.as_slice()) {
        Some(p) => p,
        None => {
            return None;
        },
    };
    let n = cs.len();
    let after = &cs.as_slice()[p + 4..n];
    let space = [' '];
    let paren = ['('];
    assert(space@ =~= seq![' ']);
    assert(paren@ =~= seq!['(']);
    proof {
        lemma_find_from_bounds(after@, seq![' '], 0);
        lemma_find_from_bounds(after@, seq!['('], 0);
    }
    let end = match find_in(after, &space) {
        Some(e) => e,
        None => match find_in(after, &paren) {
            Some(e) => e,
            None => after.len(),
        },
    };
    let sep = chars_of("::");
    let parts = split_by(&after[0..end], sep.as_slice());
    if parts.len() >= 2 {
        let k = parts.len() - 2;
        assert(parts@[k as int]@ == char_seqs(parts@)[k as int]);
        let pc = &parts[k];
        if pc.len() > 0 && is_uppercase(pc[0]) {
            return Some(string_of(pc.as_slice()));
        }
    }
    None
}

/// A backtrace line that the console sink reads a class from: one with a
/// path, outside this library and its sink module.
pub open spec fn is_console_caller_line(line: Seq<char>) -> bool {
    &&& contains(line, "::"@)
    &&& !contains(line, "scribe::"@)
    &&& !contains(line, "sink::"@)
}

/// The class of the first line of `lines` that the console sink reads one from.
pub open spec fn first_console_class(lines: Seq<Seq<char>>) -> Option<Seq<char>>
    decreases lines.len(),
{
    if lines.len() == 0 {
        None
    } else if is_console_caller_line(lines[0]) && class_name_in(lines[0]) is Some {
        class_name_in(lines[0])
    } else {
        first_console_class(lines.drop_first())
    }
}

/// A sink that writes every entry at or above a minimum level to the standard output.
pub struct ConsoleSink {
    min_level: LogLevel,
}

/// The line that a console sink prints: level, thread in brackets, tag, message.
pub open spec fn console_line(level: LogLevel, thread: Option<Seq<char>>, tag: Seq<char>, message: Seq<char>) -> Seq<char> {
    level_name(level) + " "@ + match thread {
        Some(t) => "["@ + t + "] "@,
        None => Seq::empty(),
    } + tag + ": "@ + message
}

pub open spec fn opt_str_view(o: Option<&str>) -> Option<Seq<char>> {
    match o {
        Some(s) => Some(s@),
        None => None,
    }
}

impl ConsoleSink {
    pub closed spec fn spec_min_level(&self) -> LogLevel {
        self.min_level
    }

    pub fn new() -> (r: ConsoleSink)
        ensures
            r.spec_min_level() == LogLevel::Verbose,
    {
        ConsoleSink { min_level: LogLevel::Verbose }
    }

    pub fn with_min_level(min_level: LogLevel) -> (r: ConsoleSink)
        ensures
            r.spec_min_level() == min_level,
    {
        ConsoleSink { min_level }
    }

    /// The class of the caller, read from a backtrace of the current thread,
    /// skipping this library's own frames.
    fn get_calling_class() -> (r: Option<String>)
        ensures
            exists|backtrace: Seq<char>| opt_view(r) == first_console_class(lines_seq(backtrace)),
    {
        let bt = crate::caller::capture_backtrace();
        let cs = chars_of(bt.as_str());
        let lines = lines_of(cs.as_slice());
        let colons = chars_of("::");
        let own = chars_of("scribe::");
        let sink = chars_of("sink::");
        let ghost all = lines_seq(bt@);
        assert(all.subrange(0, all.len() as int) =~= all);
        let mut i: usize = 0;
        while i < lines.len()
            invariant
                i <= lines@.len(),
                char_seqs(lines@) == all,
                all == lines_seq(bt@),
                colons@ == "::"@,
                own@ == "scribe::"@,
                sink@ == "sink::"@,
                first_console_class(all) == first_console_class(all.subrange(i as int, all.len() as int)),
            decreases lines@.len() - i,
        {
            let ghost rest = all.subrange(i as int, all.len() as int);
            assert(rest[0] == lines@[i as int]@);
            assert(rest.drop_first() =~= all.subrange(i + 1, all.len() as int));
            let line = lines[i].as_slice();
            if contains_in(line, colons.as_slice()) && !contains_in(line, own.as_slice())
                && !contains_in(line, sink.as_slice()) {
                let s = string_of(line);
                let class = extract_class_name(s.as_str());
                if class.is_some() {
                    assert(first_console_class(rest) == class_name_in(rest[0]));
                    assert(opt_view(class) == first_console_class(all));
                    return class;
                }
            }
            i = i + 1;
        }
        assert(all.subrange(i as int, all.len() as int) =~= Seq::<Seq<char>>::empty());
        None
    }

    /// The line printed for an entry whose tag is `tag`.
    pub fn format_line(level: LogLevel, tag: &str, message: &str, thread: Option<&str>) -> (r: String)
        ensures
            r@ == console_line(level, opt_str_view(thread), tag@, message@),
    {
        let mut s = level_name_of(level).to_owned();
        push_str(&mut s, " ");
        match thread {
            Some(t) => {
                push_str(&mut s, "[");
                push_str(&mut s, t);
                push_str(&mut s, "] ");
            },
            None => {},
        }
        push_str(&mut s, tag);
        push_str(&mut s, ": ");
        push_str(&mut s, message);
        assert(s@ =~= console_line(level, opt_str_view(thread), tag@, message@));
        s
    }
}

impl Default for ConsoleSink {
    fn default() -> (r: ConsoleSink)
        ensures
            r.spec_min_level() == LogLevel::Verbose,
    {
        ConsoleSink::new()
    }
}

impl LogSink for ConsoleSink {
    /// Prints the entry; without a tag, the caller's class (or `Scribe`) stands for it.
    fn log(&self, level: LogLevel, tag: Option<&str>, message: &str, thread: Option<&str>) {
        let line = match tag {
            Some(t) => ConsoleSink::format_line(level, t, message, thread),
            None => match ConsoleSink::get_calling_class() {
                Some(c) => ConsoleSink::format_line(level, c.as_str(), message, thread),
                None => ConsoleSink::format_line(level, "Scribe", message, thread),
            },
        };
        print_line(line.as_str());
    }

    fn is_loggable(&self, level: LogLevel, tag: Option<&str>) -> (r: bool)
        ensures
            r == (level.code() >= self.spec_min_level().code()),
    {
        level.to_u8() >= self.min_level.to_u8()
    }
}

/// The sinks that receive every log entry.
pub struct SinkRegistry {
    sinks: Vec<Box<dyn LogSink>>,
}

impl SinkRegistry {
    pub closed spec fn sinks(&self) -> Seq<Box<dyn LogSink>> {
        self.sinks@
    }

    pub fn new() -> (r: SinkRegistry)
        ensures
            r.sinks() == Seq::<Box<dyn LogSink>>::empty(),
    {
        SinkRegistry { sinks: Vec::new() }
    }

    /// Adds a sink after the ones already registered.
    pub fn register_sink(&mut self, sink: Box<dyn LogSink>)
        ensures
            final(self).sinks() == old(self).sinks().push(sink),
            final(self).sinks().len() == old(self).sinks().len() + 1,
    {
        let ghost before = self.sinks@;
        self.sinks.push(sink);
        proof {
            vstd::seq::axiom_seq_push_len(before, sink);
        }
    }

    /// Removes every sink.
    pub fn clear_sinks(&mut self)
        ensures
            final(self).sinks() == Seq::<Box<dyn LogSink>>::empty(),
            final(self).sinks().len() == 0,
    {
        self.sinks = Vec::new();
    }

    /// Hands the entry to every sink that finds it loggable, in registration order.
    pub fn log(&self, level: LogLevel, tag: Option<&str>, message: &str, thread: Option<&str>) {
        let mut i: usize = 0;
        while i < self.sinks.len()
            invariant
                i <= self.sinks@.len(),
            decreases self.sinks@.len() - i,
        {
            if self.sinks[i].is_loggable(level, tag) {
                self.sinks[i].log(level, tag, message, thread);
            }
            i = i + 1;
        }
    }

    pub fn sink_count(&self) -> (r: usize)
        ensures
            r == self.sinks().len(),
    {
        self.sinks.len()
    }
}

impl Default for SinkRegistry {
    fn default() -> (r: SinkRegistry)
        ensures
            r.sinks() == Seq::<Box<dyn LogSink>>::empty(),
    {
        SinkRegistry::new()
    }
}

/// Registers a sink with `registry`.
pub fn register_sink(registry: &mut SinkRegistry, sink: Box<dyn LogSink>)
    ensures
        final(registry).sinks() == old(registry).sinks().push(sink),
        final(registry).sinks().len() == old(registry).sinks().len() + 1,
{
    let ghost before = registry.sinks@;
    registry.sinks.push(sink);
    proof {
        vstd::seq::axiom_seq_push_len(before, sink);
    }
}

/// Removes every sink of `registry`.
pub fn clear_sinks(registry: &mut SinkRegistry)
    ensures
        final(registry).sinks() == Seq::<Box<dyn LogSink>>::empty(),
        final(registry).sinks().len() == 0,
{
    registry.clear_sinks();
}

} // verus!
