//! Removal of "effectively empty" directories: ones whose contents are
//! nothing but well-known junk artifacts (OS metadata files, caches,
//! virtual environments).
//!
//! The crate has two parts:
//!
//! - [`can_be_deleted`]: the deletability oracle.  Given what was observed
//!   about a directory (its path and its listing), it decides whether the
//!   directory may be deleted, and if not, why not.
//! - [`emptydir`]: the pruning algorithm.  It removes every deletable
//!   directory from a directory tree, children before parents, and climbs
//!   the ancestor chain deleting directories that have become empty,
//!   stopping at the first one it may not delete.
//!
//! Reading directories and deleting them are filesystem work and live with
//! the caller; everything here computes on plain values.

pub mod can_be_deleted;
pub mod emptydir;

use vstd::prelude::*;

verus! {

/// A single character folded to lower case, ASCII only: `'A'..='Z'` map to
/// `'a'..='z'`, every other character is unchanged.
pub open spec fn lower_char(c: char) -> char {
    if 'A' <= c && c <= 'Z' {
        ((c as u32) + 32) as char
    } else {
        c
    }
}

/// A name folded to lower case, character by character.
pub open spec fn lower(s: Seq<char>) -> Seq<char> {
    Seq::new(s.len(), |i: int| lower_char(s[i]))
}

} // verus!
