//! The typed requests that the engine and the registry consume.

use vstd::prelude::*;

use crate::error::DocumentError;

verus! {

/// A place in a document: a zero-based row index and a character offset
/// into that row. The offset is an opaque unit supplied by the caller;
/// the engine uses it as it stands.
#[derive(Debug, Clone, Copy, PartialEq, Eq, Structural)]
pub struct Position {
    pub line: u32,
    pub character: u32,
}

/// The span of text that one change event replaces, from `start`
/// inclusive to `end` exclusive.
#[derive(Debug, Clone, Copy, PartialEq, Eq, Structural)]
pub struct Range {
    pub start: Position,
    pub end: Position,
}

/// An open request's payload: the full text of the document.
#[derive(Debug, PartialEq, Eq, Clone)]
pub struct OpenDocument {
    pub text: String,
}

impl OpenDocument {
    /// Wraps `s` as the full text of a document to open.
    pub fn new(s: &str) -> (r: Self)
        ensures
            r.text@ == s@,
    {
        OpenDocument { text: s.to_owned() }
    }
}

/// One decoded edit: the range to replace and the replacement text.
#[derive(Debug, PartialEq, Eq, Clone)]
pub struct ChangeEvent {
    pub range: Range,
    pub text: String,
}

impl ChangeEvent {
    /// Pairs a range with its replacement text.
    pub fn new(range: Range, text: String) -> (r: Self)
        ensures
            r.range == range,
            r.text == text,
    {
        ChangeEvent { range, text }
    }
}

/// One edit as the wire reports it: the range is optional there, because
/// a legacy encoding describes the edit by length instead. An event
/// without a range cannot be applied and is rejected on conversion.
#[derive(Debug, PartialEq, Eq, Clone)]
pub struct RawChangeEvent {
    pub range: Option<Range>,
    pub text: String,
}

/// A change request's payload: the edits to apply, in order.
#[derive(Debug, PartialEq, Eq, Clone)]
pub struct ChangeDocument {
    pub content_changes: Vec<ChangeEvent>,
}

impl ChangeDocument {
    /// An empty change request.
    pub fn new() -> (r: Self)
        ensures
            r.content_changes@ == Seq::<ChangeEvent>::empty(),
    {
        ChangeDocument { content_changes: Vec::new() }
    }

    /// Validates raw events into a change request. Succeeds exactly when
    /// every event carries an explicit range; an event without one makes
    /// the whole request fail as deprecated.
    pub fn from_raw_events(events: Vec<RawChangeEvent>) -> (r: Result<Self, DocumentError>)
        ensures
            (forall|i: int| 0 <= i < events@.len() ==> (#[trigger] events@[i].range) is Some)
                <==> r is Ok,
            r matches Ok(cd) ==> ({
                &&& cd.content_changes@.len() == events@.len()
                &&& forall|i: int|
                    0 <= i < events@.len() ==> (#[trigger] cd.content_changes@[i]).range
                        == events@[i].range.unwrap() && cd.content_changes@[i].text
                        == events@[i].text
            }),
            r matches Err(e) ==> e matches DocumentError::Deprecated(_),
    {
        let mut content_changes: Vec<ChangeEvent> = Vec::new();
        let mut idx: usize = 0;
        while idx < events.len()
            invariant
                idx <= events@.len(),
                content_changes@.len() == idx,
                forall|i: int| 0 <= i < idx ==> (#[trigger] events@[i].range) is Some,
                forall|i: int|
                    0 <= i < idx ==> (#[trigger] content_changes@[i]).range
                        == events@[i].range.unwrap() && content_changes@[i].text
                        == events@[i].text,
            decreases events@.len() - idx,
        {
            let ev = &events[idx];
            match ev.range {
                Some(range) => {
                    content_changes.push(ChangeEvent { range, text: ev.text.clone() });
                },
                None => {
                    return Err(
                        DocumentError::Deprecated(
                            "no range given; the deprecated length-based edit encoding is not supported".to_owned(),
                        ),
                    );
                },
            }
            idx = idx + 1;
        }
        Ok(ChangeDocument { content_changes })
    }
}

} // verus!
