//! Object ids.
//!
//! An [`Oid`] is the content hash naming an immutable object in the
//! store. The engine never inspects the bytes beyond comparing them;
//! an id that is syntactically well-formed is still not guaranteed to
//! resolve in a given store.

use vstd::prelude::*;

use crate::bytes::{bytes_eq, clone_bytes};

verus! {

/// A content hash identifying an immutable stored object.
#[derive(Debug)]
pub struct Oid {
    pub bytes: Vec<u8>,
}

impl View for Oid {
    type V = Seq<u8>;

    open spec fn view(&self) -> Seq<u8> {
        self.bytes@
    }
}

impl Oid {
    /// Wraps raw hash bytes as an object id.
    pub fn from_bytes(bytes: Vec<u8>) -> (r: Oid)
        ensures
            r@ == bytes@,
    {
        Oid { bytes }
    }

    /// Copies this id.
    pub fn duplicate(&self) -> (r: Oid)
        ensures
            r@ == self@,
    {
        Oid { bytes: clone_bytes(&self.bytes) }
    }

    /// Compares two ids for equality.
    pub fn same_as(&self, other: &Oid) -> (r: bool)
        ensures
            r == (self@ == other@),
    {
        bytes_eq(&self.bytes, &other.bytes)
    }
}

} // verus!
