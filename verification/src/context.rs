//! Labels: the label a logger attaches to its entries, and the label that a
//! thread plants for every entry it logs without one.
use vstd::prelude::*;
use crate::caller::{get_calling_class, opt_view};
use crate::error::{push_str, Result, ScribeError};
use crate::sink::SinkRegistry;
use crate::storage::frame::LogLevel;
use crate::text::{decimal, decimal_of};
use vstd::string::StringSliceAdditionalSpecFns;

verus! {

broadcast use vstd::string::group_string_axioms;

/// The longest label, in bytes of its UTF-8 encoding.
pub const MAX_LABEL_LENGTH: usize = 23;

/// The text of the error for a label of `len` bytes.
pub open spec fn label_error_text(len: nat) -> Seq<char> {
    "Label exceeds maximum length: "@ + decimal(len) + " > "@ + decimal(MAX_LABEL_LENGTH as nat)
}

/// Accepts a label of at most `MAX_LABEL_LENGTH` bytes; a longer one is
/// refused with an `Mmap` error that names both lengths.
pub fn validate_label(tag: &str) -> (r: Result<()>)
    ensures
        r is Ok <==> tag.spec_bytes().len() <= MAX_LABEL_LENGTH,
        match r {
            Ok(_) => true,
            Err(ScribeError::Mmap(m)) => m@ == label_error_text(tag.spec_bytes().len()),
            Err(_) => false,
        },
{
    let n = tag.as_bytes().len();
    if n > MAX_LABEL_LENGTH {
        let mut m = "Label exceeds maximum length: ".to_owned();
        let len_text = decimal_of(n as u64);
        push_str(&mut m, len_text.as_str());
        push_str(&mut m, " > ");
        let max_text = decimal_of(MAX_LABEL_LENGTH as u64);
        push_str(&mut m, max_text.as_str());
        assert(m@ =~= label_error_text(tag.spec_bytes().len()));
        return Err(ScribeError::Mmap(m));
    }
    Ok(())
}

/// Where a thread keeps the label it planted.
pub struct LabelSlot {
    label: Option<String>,
}

impl LabelSlot {
    /// The planted label, if any.
    pub closed spec fn spec_label(&self) -> Option<Seq<char>> {
        opt_view(self.label)
    }

    /// A slot with no label planted.
    pub fn new() -> (r: LabelSlot)
        ensures
            r.spec_label() is None,
    {
        LabelSlot { label: None }
    }
}

impl Default for LabelSlot {
    fn default() -> (r: LabelSlot)
        ensures
            r.spec_label() is None,
    {
        LabelSlot::new()
    }
}

/// Plants `tag` as the thread's label, or clears it with `None`.
pub fn set_thread_label(slot: &mut LabelSlot, tag: Option<String>)
    ensures
        final(slot).spec_label() == opt_view(tag),
{
    slot.label = tag;
}

/// The thread's label, as last planted.
pub fn get_thread_label(slot: &LabelSlot) -> (r: Option<String>)
    ensures
        opt_view(r) == slot.spec_label(),
{
    match &slot.label {
        Some(s) => Some(s.clone()),
        None => None,
    }
}

/// Clears the thread's label.
pub fn uproot(slot: &mut LabelSlot)
    ensures
        final(slot).spec_label() is None,
{
    set_thread_label(slot, None);
}

/// A logger that attaches one label to every entry.
pub struct LabeledLogger {
    label: String,
}

impl LabeledLogger {
    /// The label this logger attaches.
    pub closed spec fn spec_label(&self) -> Seq<char> {
        self.label@
    }

    pub fn new(label: String) -> (r: LabeledLogger)
        ensures
            r.spec_label() == label@,
    {
        LabeledLogger { label }
    }

    /// The label this logger attaches.
    pub fn label(&self) -> (r: &str)
        ensures
            r@ == self.spec_label(),
    {
        self.label.as_str()
    }

    fn log_at(&self, registry: &SinkRegistry, level: LogLevel, message: &str, thread: Option<&str>) {
        registry.log(level, Some(self.label.as_str()), message, thread);
    }

    /// Logs `message` at the verbose level under this logger's label.
    pub fn v(&self, registry: &SinkRegistry, message: &str, thread: Option<&str>) {
        self.log_at(registry, LogLevel::Verbose, message, thread);
    }

    /// Logs `message` at the debug level under this logger's label.
    pub fn d(&self, registry: &SinkRegistry, message: &str, thread: Option<&str>) {
        self.log_at(registry, LogLevel::Debug, message, thread);
    }

    /// Logs `message` at the info level under this logger's label.
    pub fn i(&self, registry: &SinkRegistry, message: &str, thread: Option<&str>) {
        self.log_at(registry, LogLevel::Info, message, thread);
    }

    /// Logs `message` at the warning level under this logger's label.
    pub fn w(&self, registry: &SinkRegistry, message: &str, thread: Option<&str>) {
        self.log_at(registry, LogLevel::Warn, message, thread);
    }

    /// Logs `message` at the error level under this logger's label.
    pub fn e(&self, registry: &SinkRegistry, message: &str, thread: Option<&str>) {
        self.log_at(registry, LogLevel::Error, message, thread);
    }

    /// Plants this logger's label as the thread's label, until `uproot`.
    pub fn plant(&self, slot: &mut LabelSlot)
        ensures
            final(slot).spec_label() == Some(self.spec_label()),
    {
        set_thread_label(slot, Some(self.label.clone()));
    }
}

/// A logger for the label `tag`.
pub fn label(tag: &str) -> (r: LabeledLogger)
    ensures
        r.spec_label() == tag@,
{
    LabeledLogger::new(tag.to_owned())
}

/// The tag for an entry logged without one: the thread's planted label if
/// there is one, else the class of the caller read from a backtrace.
pub fn auto_tag(slot: &LabelSlot) -> (r: Option<String>)
    ensures
        slot.spec_label() is Some ==> opt_view(r) == slot.spec_label(),
{
    let planted = get_thread_label(slot);
    match planted {
        Some(t) => Some(t),
        None => get_calling_class(),
    }
}

/// Logs `message` at `level` under the tag that `auto_tag` picks.
pub fn log_with_auto_tag(registry: &SinkRegistry, slot: &LabelSlot, level: LogLevel, message: &str, thread: Option<&str>) {
    let tag = auto_tag(slot);
    match &tag {
        Some(t) => registry.log(level, Some(t.as_str()), message, thread),
        None => registry.log(level, None, message, thread),
    }
}

} // verus!
