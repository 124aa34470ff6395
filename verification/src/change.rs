//! A change: an immutable, content-addressed update with typed
//! dependencies on earlier changes. The store of all changes forms a
//! directed acyclic graph.

use vstd::prelude::*;

use crate::hash::ChangeHash;

verus! {

/// One change. The hash identifies it; `deps` names the changes it
/// builds on; `payload` is the opaque body carried for the document
/// engine.
#[derive(Debug, PartialEq)]
pub struct Change {
    pub hash: ChangeHash,
    pub deps: Vec<ChangeHash>,
    pub payload: Vec<u8>,
}

/// The mathematical image of a change.
pub ghost struct ChangeView {
    pub hash: Seq<u8>,
    pub deps: Seq<Seq<u8>>,
    pub payload: Seq<u8>,
}

impl View for Change {
    type V = ChangeView;

    open spec fn view(&self) -> ChangeView {
        ChangeView { hash: self.hash@, deps: self.deps.deep_view(), payload: self.payload@ }
    }
}

impl DeepView for Change {
    type V = ChangeView;

    open spec fn deep_view(&self) -> ChangeView {
        self@
    }
}

impl Clone for Change {
    /// A deep copy with the same mathematical value.
    fn clone(&self) -> (r: Change)
        ensures
            r@ == self@,
    {
        let r = Change {
            hash: self.hash,
            deps: crate::hash::copy_hashes(&self.deps),
            payload: copy_bytes(&self.payload),
        };
        proof {
            assert(r@.deps =~= self@.deps);
        }
        r
    }
}

/// A fresh vector with the same bytes.
pub fn copy_bytes(src: &Vec<u8>) -> (r: Vec<u8>)
    ensures
        r@ == src@,
{
    let mut r: Vec<u8> = Vec::new();
    let mut i: usize = 0;
    while i < src.len()
        invariant
            0 <= i <= src@.len(),
            r@ == src@.subrange(0, i as int),
        decreases src@.len() - i,
    {
        r.push(src[i]);
        proof {
            assert(r@ =~= src@.subrange(0, i + 1));
        }
        i = i + 1;
    }
    proof {
        assert(src@.subrange(0, src@.len() as int) =~= src@);
    }
    r
}

impl Change {
    /// The change's own hash.
    pub fn hash(&self) -> (r: ChangeHash)
        ensures
            r@ == self@.hash,
    {
        self.hash
    }
}

} // verus!
