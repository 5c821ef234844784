//! Position arithmetic and an append-only backing store for a Merkle Mountain Range.
use vstd::prelude::*;

pub mod store;
pub mod utils;

verus! {

/// A node hash as held by a store. The library never inspects its bytes.
pub type Hash = [u8; 32];

/// The errors a store reports.
#[derive(Clone, Copy, Debug, PartialEq, Eq, Structural)]
pub enum Error {
    /// No hash is stored at the given position.
    MissingHashAtIndex(u64),
}

} // verus!
