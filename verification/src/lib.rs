//! Extraction of image entries from ePub and zip archives: the entry
//! filtering, output-name derivation and copy planning of a small batch
//! converter, with the archive reads done by the `zip` crate behind a narrow
//! trusted boundary.

use vstd::prelude::*;

pub mod archive;
pub mod entries;
pub mod extract;
pub mod inputs;
pub mod names;
pub mod writes;

verus! {

/// The views of a sequence of strings.
pub open spec fn str_views(v: Seq<String>) -> Seq<Seq<char>> {
    Seq::new(v.len(), |i: int| v[i]@)
}

} // verus!
