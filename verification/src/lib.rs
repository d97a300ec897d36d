//! Bit-addressable views over word-addressed memory.
//!
//! A view names a run of bits inside an array of unsigned integers
//! ("elements") by the index of its first element, the bit at which it
//! starts inside that element, and its length in bits.  Views are plain
//! values; the memory they describe is handed to each operation, so that
//! two views which share an edge element can both be live.  Every write
//! goes through a mask and leaves the bits outside the view as they were.
//!
//! - [`mem`] says what an element is, [`index`] what an index into one is,
//!   and [`order`] how the logical indices of an element map to physical
//!   positions.
//! - [`pointer`] holds the descriptor of a bit region and [`domain`] the
//!   shape of a region over its elements.
//! - [`slice`] holds the views and the operations on their bits, [`field`]
//!   the reading and writing of a short view as an integer, [`reduce`] the
//!   tests on all bits of a view and the filling of one, [`count`] the
//!   counting of bits, [`adder`] addition on views, and [`record`] a view
//!   and its elements as plain values.
//! - [`bits`] holds the algebra of bits that the proofs rest on.
pub mod adder;
pub mod bits;
pub mod count;
pub mod domain;
pub mod field;
pub mod index;
pub mod mem;
pub mod order;
pub mod pointer;
pub mod record;
pub mod reduce;
pub mod slice;

