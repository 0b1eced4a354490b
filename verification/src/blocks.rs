//! The blocks of a phase's retrieval structure: bytes that a map owns, or
//! borrows from the bytes it was read from.

use crate::wire::put_bytes;
use vstd::prelude::*;
use vstd::std_specs::cmp::PartialEqSpecImpl;

verus! {

/// The blocks of a phase: borrowed from the bytes that the map was read
/// from, or owned.
#[derive(Clone, Debug)]
pub enum Blocks<'a> {
    Borrowed(&'a [u8]),
    Owned(Vec<u8>),
}

impl<'a> View for Blocks<'a> {
    type V = Seq<u8>;

    open spec fn view(&self) -> Seq<u8> {
        match self {
            Blocks::Borrowed(bytes) => bytes@,
            Blocks::Owned(bytes) => bytes@,
        }
    }
}

impl<'a> Blocks<'a> {
    /// The bytes.
    pub fn as_slice(&self) -> (bytes: &[u8])
        ensures
            bytes@ == self@,
    {
        match self {
            Blocks::Borrowed(bytes) => bytes,
            Blocks::Owned(bytes) => bytes.as_slice(),
        }
    }

    /// The same bytes, owned: borrowed bytes are copied.
    pub fn into_owned<'b>(self) -> (owned: Blocks<'b>)
        ensures
            owned@ == self@,
            owned is Owned,
    {
        match self {
            Blocks::Borrowed(bytes) => {
                let mut copy: Vec<u8> = Vec::new();
                put_bytes(&mut copy, bytes);
                Blocks::Owned(copy)
            },
            Blocks::Owned(bytes) => Blocks::Owned(bytes),
        }
    }
}

impl<'a> PartialEq for Blocks<'a> {
    /// Blocks are equal if their bytes are, borrowed or owned.
    fn eq(&self, other: &Self) -> (r: bool) {
        let left: &[u8] = self.as_slice();
        let right: &[u8] = other.as_slice();
        if left.len() != right.len() {
            return false;
        }
        let n: usize = left.len();
        let mut i: usize = 0;
        while i < n
            invariant
                i <= n,
                n == left@.len(),
                n == right@.len(),
                left@ == self@,
                right@ == other@,
                forall|j: int| 0 <= j < i ==> left@[j] == right@[j],
            decreases n - i,
        {
            if left[i] != right[i] {
                return false;
            }
            i = i + 1;
        }
        proof {
            assert(left@ =~= right@);
        }
        true
    }
}

impl<'a> PartialEqSpecImpl for Blocks<'a> {
    open spec fn obeys_eq_spec() -> bool {
        true
    }

    open spec fn eq_spec(&self, other: &Self) -> bool {
        self@ == other@
    }
}

impl<'a> Eq for Blocks<'a> {

}

} // verus!
