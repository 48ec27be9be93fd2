//! The key under which a site is filed: the bytes of its domain, owned or
//! borrowed. Two keys are the same key when their bytes are the same,
//! whichever way each holds them.

use vstd::prelude::*;
use vstd::std_specs::cmp::PartialEqSpecImpl;

verus! {

/// The bytes of a domain, owned by the key or borrowed for a lookup.
#[derive(Debug, Eq)]
pub enum DomainKey<'a> {
    Owned(Vec<u8>),
    Shared(&'a [u8]),
}

/// Tells whether two slices hold the same bytes.
pub fn same_bytes(a: &[u8], b: &[u8]) -> (r: bool)
    ensures
        r == (a@ == b@),
{
    if a.len() != b.len() {
        return false;
    }
    let mut i: usize = 0;
    while i < a.len()
        invariant
            i <= a@.len(),
            a@.len() == b@.len(),
            forall|j: int| 0 <= j < i ==> a@[j] == b@[j],
        decreases a@.len() - i,
    {
        if a[i] != b[i] {
            return false;
        }
        i = i + 1;
    }
    assert(a@ =~= b@);
    true
}

impl<'a> DomainKey<'a> {
    /// The bytes of the domain.
    pub open spec fn bytes(&self) -> Seq<u8> {
        match self {
            DomainKey::Owned(vec) => vec@,
            DomainKey::Shared(slice) => slice@,
        }
    }

    /// The bytes of the domain, however the key holds them.
    pub fn as_ref(&'a self) -> (r: &'a [u8])
        ensures
            r@ == self.bytes(),
    {
        match self {
            DomainKey::Owned(vec) => vec.as_slice(),
            DomainKey::Shared(slice) => *slice,
        }
    }
}

impl<'a, 'b> PartialEq<DomainKey<'b>> for DomainKey<'a> {
    fn eq(&self, other: &DomainKey<'b>) -> (r: bool) {
        same_bytes(self.as_ref(), other.as_ref())
    }
}

impl<'a, 'b> PartialEqSpecImpl<DomainKey<'b>> for DomainKey<'a> {
    open spec fn obeys_eq_spec() -> bool {
        true
    }

    open spec fn eq_spec(&self, other: &DomainKey<'b>) -> bool {
        self.bytes() == other.bytes()
    }
}

} // verus!
