//! What the ring asks of a node or an item: a canonical byte encoding, and
//! clones that equal the value they were made from.

use vstd::prelude::*;
use vstd::slice::slice_to_vec;
use vstd::string::StrSliceExecFns;
use vstd::utf8::encode_utf8;

verus! {

/// A value that the ring can place or look up.
///
/// The ring tells two values apart by their bytes alone. It keeps clones of
/// the nodes it is given and hands out clones of those, so a clone has to be
/// equal to the value it was made from.
pub trait ToBytes: Clone {
    /// The canonical byte encoding of the value.
    spec fn encoding(&self) -> Seq<u8>;

    /// Computes the canonical byte encoding.
    fn to_bytes(&self) -> (out: Vec<u8>)
        ensures
            out@ == self.encoding(),
    ;

    /// A clone is equal to the value it was made from.
    proof fn clone_is_exact(a: Self, b: Self)
        requires
            cloned(a, b),
        ensures
            a == b,
    ;
}

/// A string slice is encoded as its UTF-8 bytes.
impl<'a> ToBytes for &'a str {
    open spec fn encoding(&self) -> Seq<u8> {
        encode_utf8(self@)
    }

    fn to_bytes(&self) -> (out: Vec<u8>) {
        self.as_bytes_vec()
    }

    proof fn clone_is_exact(a: Self, b: Self) {
    }
}

/// A string is encoded as its UTF-8 bytes.
impl ToBytes for String {
    open spec fn encoding(&self) -> Seq<u8> {
        encode_utf8(self@)
    }

    fn to_bytes(&self) -> (out: Vec<u8>) {
        self.as_str().as_bytes_vec()
    }

    proof fn clone_is_exact(a: Self, b: Self) {
    }
}

/// A byte slice is its own encoding.
impl<'a> ToBytes for &'a [u8] {
    open spec fn encoding(&self) -> Seq<u8> {
        self@
    }

    fn to_bytes(&self) -> (out: Vec<u8>) {
        slice_to_vec(*self)
    }

    proof fn clone_is_exact(a: Self, b: Self) {
    }
}

/// Clones a value, and knows the clone to be equal to it.
pub(crate) fn duplicate<N: ToBytes>(value: &N) -> (out: N)
    ensures
        out == *value,
{
    let out = value.clone();
    proof {
        N::clone_is_exact(*value, out);
    }
    out
}

} // verus!
