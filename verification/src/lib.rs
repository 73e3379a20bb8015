//! A small verified matrix library.
//!
//! The heart of the crate is [`matrix::Matrix`]: a resizable, possibly
//! non-rectangular two-dimensional container with safe random element access
//! and structural operations (swapping cells or rows, transposition).  On top
//! of it sit positional views over the diagonals and the columns
//! ([`views`]), a shared in-place comparison sort that works over any such
//! view ([`sort`]), a handful of whole-matrix operations ([`ops`]) and a
//! deterministic textual rendering ([`render`]).
//!
//! Every executable function carries a contract; mutation of a matrix always
//! goes through index-based entry points (`set`, `swap_elements`, ...) whose
//! postconditions pin the new contents down exactly, so views never need to
//! hand out aliasing mutable references.

pub mod matrix;
pub mod ops;
pub mod render;
pub mod sort;
pub mod views;
