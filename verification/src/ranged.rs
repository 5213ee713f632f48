//! Errors tied to the region of the source text where they arose, with
//! lines and characters counted from 0 as the Language Server Protocol
//! counts them.
use vstd::prelude::*;
use crate::syntax::{MdPoint, MdPosition};

verus! {

/// A place in a text document, counted from 0.
#[derive(Debug, Clone, Copy, PartialEq, Eq, Structural)]
pub struct LspPosition {
    pub line: u32,
    pub character: u32,
}

/// A region of a text document.
#[derive(Debug, Clone, Copy, PartialEq, Eq, Structural)]
pub struct LspRange {
    pub start: LspPosition,
    pub end: LspPosition,
}

/// An error and the region it concerns, when that is known.
#[derive(Debug, Clone, PartialEq, Eq)]
pub struct Ranged<E> {
    pub error: E,
    pub range: Option<LspRange>,
}

impl<E: View> View for Ranged<E> {
    type V = Ranged<E::V>;

    open spec fn view(&self) -> Ranged<E::V> {
        Ranged { error: self.error@, range: self.range }
    }
}

/// Whether a source place, counted from 1, can be counted from 0 in a `u32`.
pub open spec fn point_fits(p: MdPoint) -> bool {
    1 <= p.line <= u32::MAX + 1 && 1 <= p.column <= u32::MAX + 1
}

/// Whether a source region, if there is one, can be written as an [`LspRange`].
pub open spec fn position_fits(p: Option<MdPosition>) -> bool {
    match p {
        None => true,
        Some(q) => point_fits(q.start) && point_fits(q.end),
    }
}

/// A source place counted from 0.
pub open spec fn lsp_point(p: MdPoint) -> LspPosition {
    LspPosition { line: (p.line - 1) as u32, character: (p.column - 1) as u32 }
}

/// A source region counted from 0, if there is one.
pub open spec fn lsp_range(p: Option<MdPosition>) -> Option<LspRange> {
    match p {
        None => None,
        Some(q) => Some(LspRange { start: lsp_point(q.start), end: lsp_point(q.end) }),
    }
}

/// An error with the source region it concerns.
pub open spec fn ranged_spec<E>(error: E, p: Option<MdPosition>) -> Ranged<E> {
    Ranged { error, range: lsp_range(p) }
}

/// A source place counted from 0.
pub fn lsp_position(p: &MdPoint) -> (r: LspPosition)
    requires
        point_fits(*p),
    ensures
        r == lsp_point(*p),
{
    LspPosition { line: (p.line - 1) as u32, character: (p.column - 1) as u32 }
}

/// Ties an error to the source region it concerns.
pub fn ranged<E>(error: E, p: Option<&MdPosition>) -> (r: Ranged<E>)
    requires
        p matches Some(q) ==> point_fits(q.start) && point_fits(q.end),
    ensures
        r.error == error,
        r.range == lsp_range(
            match p {
                Some(q) => Some(*q),
                None => None,
            },
        ),
{
    match p {
        Some(q) => Ranged {
            error,
            range: Some(LspRange { start: lsp_position(&q.start), end: lsp_position(&q.end) }),
        },
        None => Ranged { error, range: None },
    }
}

} // verus!
