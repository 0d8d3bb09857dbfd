//! Which spans and events each layer of a tracing subscriber takes, and what the layers read
//! from the fields of an event.

use vstd::prelude::*;
use vstd::string::StringExecFns;

use crate::text::same_text;

verus! {

/// The name of the field that holds the file of a location.
pub const FILE_FIELD_NAME: &'static str = "loc.file";

/// The name of the field that holds the line of a location.
pub const LINE_FIELD_NAME: &'static str = "loc.line";

/// The name of the field that holds the message of an event.
pub const MESSAGE_FIELD_NAME: &'static str = "message";

/// Whether the text starts with the prefix.
///
/// Trusted: `str::starts_with` of std with a string as the pattern, which tells whether the
/// string is a prefix of the text.
#[verifier::external_body]
pub(crate) fn starts_with(text: &str, prefix: &str) -> (r: bool)
    ensures
        r == prefix@.is_prefix_of(text@),
{
    text.starts_with(prefix)
}

/// Whether the flamegraph layer takes a span or event: spans only, of the runtime or of
/// observed futures.
pub fn flamegraph_filter(is_event: bool, name: &str, target: &str) -> (r: bool)
    ensures
        r == (!is_event && ("runtime"@.is_prefix_of(name@) || "tokio"@.is_prefix_of(target@)
            || target@ == "trace_tools::observe"@)),
{
    if is_event {
        return false;
    }
    starts_with(name, "runtime") || starts_with(target, "tokio") || same_text(
        target,
        "trace_tools::observe",
    )
}

/// Whether the log layer takes a span or event: events only.
pub fn log_filter(is_event: bool) -> (r: bool)
    ensures
        r == is_event,
{
    is_event
}

/// Whether the console layer takes a span or event: those of the runtime, told by the
/// target of an event and by the name or the target of a span.
pub fn console_filter(is_event: bool, name: &str, target: &str) -> (r: bool)
    ensures
        r == if is_event {
            "runtime"@.is_prefix_of(target@) || "tokio"@.is_prefix_of(target@)
        } else {
            "runtime"@.is_prefix_of(name@) || "tokio"@.is_prefix_of(target@)
        },
{
    if is_event {
        return starts_with(target, "runtime") || starts_with(target, "tokio");
    }
    starts_with(name, "runtime") || starts_with(target, "tokio")
}

/// What a [`LocationVisitor`] has read.
pub struct LocationVisitorView {
    pub file: Option<Seq<char>>,
    pub line: Option<u32>,
}

/// Reads the location of an event, its file and its line, from the fields of the event.
#[derive(Debug)]
pub struct LocationVisitor {
    file: Option<String>,
    line: Option<u32>,
}

impl View for LocationVisitor {
    type V = LocationVisitorView;

    closed spec fn view(&self) -> LocationVisitorView {
        LocationVisitorView {
            file: match self.file {
                Some(file) => Some(file@),
                None => None,
            },
            line: self.line,
        }
    }
}

impl LocationVisitor {
    /// A visitor that has read nothing.
    pub fn new() -> (r: Self)
        ensures
            r@ == (LocationVisitorView { file: None, line: None }),
    {
        LocationVisitor { file: None, line: None }
    }

    /// The file that was read, if any.
    pub fn file(&self) -> (r: Option<&str>)
        ensures
            match r {
                Some(file) => self@.file == Some(file@),
                None => self@.file is None,
            },
    {
        match &self.file {
            Some(file) => Some(file.as_str()),
            None => None,
        }
    }

    /// The line that was read, if any.
    pub fn line(&self) -> (r: Option<u32>)
        ensures
            r == self@.line,
    {
        self.line
    }

    /// Reads a number: the line, if the field is the line field. Of a number that does
    /// not fit the low 32 bits are kept.
    pub fn record_u64(&mut self, field: &str, value: u64)
        ensures
            final(self)@ == if field@ == LINE_FIELD_NAME@ {
                LocationVisitorView { line: Some((value % 0x1_0000_0000) as u32), ..old(self)@ }
            } else {
                old(self)@
            },
    {
        if same_text(field, LINE_FIELD_NAME) {
            self.line = Some((value % 0x1_0000_0000) as u32);
        }
    }

    /// Reads a text: the file, if the field is the file field.
    pub fn record_str(&mut self, field: &str, value: &str)
        ensures
            final(self)@ == if field@ == FILE_FIELD_NAME@ {
                LocationVisitorView { file: Some(value@), ..old(self)@ }
            } else {
                old(self)@
            },
    {
        if same_text(field, FILE_FIELD_NAME) {
            self.file = Some(String::from_str(value));
        }
    }
}

} // verus!
