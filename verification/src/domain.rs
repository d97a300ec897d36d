//! The shape of a bit region: which of its elements are covered in part
//! and which in full.
use crate::index::{BitIdx, BitTail};
use crate::mem::BitMemory;
use core::ops::Range;
use vstd::prelude::*;

verus! {

/// How a bit region lies over its elements.
///
/// An edge element is covered in part and may hold bits of a neighbouring
/// region, so it is only ever written through a mask.  The body is the run
/// of elements that are covered in full.  Elements are named by their index
/// in the backing array, the body by a half-open range of indices.
pub enum Domain<T: BitMemory> {
    /// The region holds no bits.
    Empty,
    /// The region lies inside one element and touches neither of its ends.
    Minor { head: BitIdx<T>, elem: usize, tail: BitTail<T> },
    /// The region starts inside its first element and ends inside its last,
    /// which is another element.
    Major { head: BitIdx<T>, left: usize, body: Range<usize>, right: usize, tail: BitTail<T> },
    /// The region starts inside its first element and runs to the end of
    /// its last.
    PartialHead { head: BitIdx<T>, elem: usize, body: Range<usize> },
    /// The region starts at the start of its first element and ends inside
    /// its last.
    PartialTail { body: Range<usize>, elem: usize, tail: BitTail<T> },
    /// The region covers each of its elements in full.
    Spanning { body: Range<usize> },
}

impl<T: BitMemory> Domain<T> {
    /// The elements that the region covers in full.  A region with no such
    /// element has an empty range.
    pub open spec fn spec_body(self) -> Range<usize> {
        match self {
            Domain::Empty => Range { start: 0, end: 0 },
            Domain::Minor { head, elem, tail } => Range { start: elem, end: elem },
            Domain::Major { head, left, body, right, tail } => body,
            Domain::PartialHead { head, elem, body } => body,
            Domain::PartialTail { body, elem, tail } => body,
            Domain::Spanning { body } => body,
        }
    }

    /// The elements that the region covers in full.  A region with no such
    /// element has an empty range.
    pub fn body(&self) -> (r: Range<usize>)
        ensures
            r == self.spec_body(),
    {
        match self {
            Domain::Empty => 0..0,
            Domain::Minor { head, elem, tail } => *elem..*elem,
            Domain::Major { head, left, body, right, tail } => body.start..body.end,
            Domain::PartialHead { head, elem, body } => body.start..body.end,
            Domain::PartialTail { body, elem, tail } => body.start..body.end,
            Domain::Spanning { body } => body.start..body.end,
        }
    }

    /// Whether the region holds no bits.
    pub fn is_empty(&self) -> (r: bool)
        ensures
            r == (*self is Empty),
    {
        match self {
            Domain::Empty => true,
            _ => false,
        }
    }

    /// Whether the region lies strictly inside one element.
    pub fn is_minor(&self) -> (r: bool)
        ensures
            r == (*self is Minor),
    {
        match self {
            Domain::Minor { .. } => true,
            _ => false,
        }
    }

    /// Whether the region has a partial element at both ends.
    pub fn is_major(&self) -> (r: bool)
        ensures
            r == (*self is Major),
    {
        match self {
            Domain::Major { .. } => true,
            _ => false,
        }
    }

    /// Whether only the first element of the region is partial.
    pub fn is_partial_head(&self) -> (r: bool)
        ensures
            r == (*self is PartialHead),
    {
        match self {
            Domain::PartialHead { .. } => true,
            _ => false,
        }
    }

    /// Whether only the last element of the region is partial.
    pub fn is_partial_tail(&self) -> (r: bool)
        ensures
            r == (*self is PartialTail),
    {
        match self {
            Domain::PartialTail { .. } => true,
            _ => false,
        }
    }

    /// Whether the region covers each of its elements in full.
    pub fn is_spanning(&self) -> (r: bool)
        ensures
            r == (*self is Spanning),
    {
        match self {
            Domain::Spanning { .. } => true,
            _ => false,
        }
    }
}

} // verus!
