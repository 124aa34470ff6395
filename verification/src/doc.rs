//! The change store: an append-only, dependency-closed collection of
//! changes in application order, with the queries the sync protocol
//! reads it through. A hash is *implied* by a set of hashes when it is
//! one of them or an ancestor of one of them within the store.

use vstd::prelude::*;

use crate::bloom::MAX_BLOOM_ENTRIES;
use crate::change::{Change, ChangeView};
use crate::error::ApplyError;
use crate::hash::{
    contains_hash, lex_sorted_strict, sorted_insert, ChangeHash,
};

verus! {

/// The set a sequence of hash values stands for.
pub open spec fn as_set(hs: Seq<Seq<u8>>) -> Set<Seq<u8>> {
    Set::new(|h: Seq<u8>| hs.contains(h))
}

/// Whether some stored change has this hash.
pub open spec fn store_has(s: Seq<ChangeView>, h: Seq<u8>) -> bool {
    exists|i: int| 0 <= i < s.len() && s[i].hash == h
}

/// The index of the change with this hash.
pub open spec fn idx_of(s: Seq<ChangeView>, h: Seq<u8>) -> int {
    choose|i: int| 0 <= i < s.len() && s[i].hash == h
}

/// The store's invariant: hashes are unique, every dependency names an
/// earlier change (so the order is topological and the graph acyclic),
/// and the store stays small enough for its bloom summary to fit the
/// wire format.
/// Dependency `k` of change `i` names some earlier change.
pub open spec fn dep_before(s: Seq<ChangeView>, i: int, k: int) -> bool {
    exists|j: int| 0 <= j < i && s[j].hash == s[i].deps[k]
}

pub open spec fn store_wf(s: Seq<ChangeView>) -> bool {
    &&& forall|i: int, j: int| 0 <= i < j < s.len() ==> s[i].hash != s[j].hash
    &&& forall|i: int, k: int|
        0 <= i < s.len() && 0 <= k < s[i].deps.len() ==> #[trigger] dep_before(s, i, k)
}

/// Whether the change at index `i` is implied by `since`: its hash is
/// in `since`, or some later change that is itself implied depends on
/// it. This is exactly "ancestor of a member of `since` present in the
/// store", unwound along the topological order.
pub open spec fn implied(s: Seq<ChangeView>, since: Set<Seq<u8>>, i: int) -> bool
    decreases s.len() - i,
{
    if 0 <= i < s.len() {
        since.contains(s[i].hash) || exists|k: int|
            i < k < s.len() && implied(s, since, k) && #[trigger] s[k].deps.contains(s[i].hash)
    } else {
        false
    }
}

/// Whether the hash `h` names a stored change implied by `since`.
pub open spec fn hash_implied(s: Seq<ChangeView>, since: Set<Seq<u8>>, h: Seq<u8>) -> bool {
    exists|i: int| 0 <= i < s.len() && s[i].hash == h && implied(s, since, i)
}

/// A head: a stored change no stored change depends on.
pub open spec fn is_head(s: Seq<ChangeView>, i: int) -> bool {
    0 <= i < s.len() && forall|j: int| 0 <= j < s.len() ==> !(#[trigger] s[j].deps).contains(
        s[i].hash,
    )
}

/// The changes at index `i` and after that are not implied by `since`,
/// in store order.
pub open spec fn changes_since(s: Seq<ChangeView>, since: Set<Seq<u8>>, i: int) -> Seq<ChangeView>
    decreases s.len() - i,
{
    if 0 <= i < s.len() {
        if implied(s, since, i) {
            changes_since(s, since, i + 1)
        } else {
            seq![s[i]] + changes_since(s, since, i + 1)
        }
    } else {
        Seq::empty()
    }
}

/// A member of `since` present in the store is implied by it.
pub proof fn lemma_implied_member(s: Seq<ChangeView>, st: Set<Seq<u8>>, i: int)
    requires
        0 <= i < s.len(),
        st.contains(s[i].hash),
    ensures
        implied(s, st, i),
{
}

/// A dependency of an implied change is implied.
pub proof fn lemma_implied_step(s: Seq<ChangeView>, st: Set<Seq<u8>>, i: int, k: int)
    requires
        0 <= i < s.len(),
        i < k < s.len(),
        implied(s, st, k),
        s[k].deps.contains(s[i].hash),
    ensures
        implied(s, st, i),
{
    assert(exists|q: int|
        i < q < s.len() && implied(s, st, q) && #[trigger] s[q].deps.contains(s[i].hash)) by {
        assert(implied(s, st, k) && s[k].deps.contains(s[i].hash));
    }
}

/// An implied change is a member of `since` or a dependency of a later
/// implied change: the definition, read back.
pub proof fn lemma_implied_inv(s: Seq<ChangeView>, st: Set<Seq<u8>>, i: int)
    requires
        implied(s, st, i),
    ensures
        0 <= i < s.len(),
        st.contains(s[i].hash) || exists|k: int|
            i < k < s.len() && implied(s, st, k) && #[trigger] s[k].deps.contains(s[i].hash),
{
}


/// The run of unimplied changes: each element is a stored, unimplied
/// change; their hashes are pairwise distinct; and every unimplied
/// stored change appears.
#[verifier::rlimit(100)]
pub proof fn lemma_changes_since_elems(s: Seq<ChangeView>, st: Set<Seq<u8>>, i: int)
    requires
        store_wf(s),
        0 <= i,
    ensures
        forall|p: int|
            0 <= p < changes_since(s, st, i).len() ==> exists|j: int|
                i <= j < s.len() && s[j] == #[trigger] changes_since(s, st, i)[p] && !implied(
                    s,
                    st,
                    j,
                ),
        forall|p: int, q: int|
            0 <= p < q < changes_since(s, st, i).len() ==> changes_since(s, st, i)[p].hash
                != changes_since(s, st, i)[q].hash,
        forall|j: int|
            i <= j < s.len() && !implied(s, st, j) ==> exists|p: int|
                0 <= p < changes_since(s, st, i).len() && changes_since(s, st, i)[p] == s[j],
        i <= s.len() ==> changes_since(s, st, i).len() + i <= s.len(),
    decreases s.len() - i,
{
    let r = changes_since(s, st, i);
    if 0 <= i < s.len() {
        lemma_changes_since_elems(s, st, i + 1);
        let rr = changes_since(s, st, i + 1);
        if implied(s, st, i) {
            assert forall|j: int|
                i <= j < s.len() && !implied(s, st, j) implies exists|p: int|
                0 <= p < r.len() && r[p] == s[j] by {
                assert(j != i);
                let p = choose|p: int| 0 <= p < rr.len() && rr[p] == s[j];
                assert(r[p] == s[j]);
            }
        } else {
            assert(r == seq![s[i]] + rr);
            assert(r[0] == s[i]);
            assert forall|p: int|
                0 <= p < r.len() implies exists|j: int|
                i <= j < s.len() && s[j] == #[trigger] r[p] && !implied(s, st, j) by {
                if p == 0 {
                    assert(s[i] == r[p] && !implied(s, st, i));
                } else {
                    assert(r[p] == rr[p - 1]);
                    let j = choose|j: int|
                        i + 1 <= j < s.len() && s[j] == rr[p - 1] && !implied(s, st, j);
                    assert(s[j] == r[p] && !implied(s, st, j));
                }
            }
            assert forall|p: int, q: int|
                0 <= p < q < r.len() implies r[p].hash != r[q].hash by {
                if p == 0 {
                    let j = choose|j: int|
                        i + 1 <= j < s.len() && s[j] == rr[q - 1] && !implied(s, st, j);
                    assert(r[q] == s[j]);
                    assert(s[i].hash != s[j].hash);
                } else {
                    assert(r[p] == rr[p - 1] && r[q] == rr[q - 1]);
                }
            }
            assert forall|j: int|
                i <= j < s.len() && !implied(s, st, j) implies exists|p: int|
                0 <= p < r.len() && r[p] == s[j] by {
                if j == i {
                    assert(r[0] == s[j]);
                } else {
                    let p = choose|p: int| 0 <= p < rr.len() && rr[p] == s[j];
                    assert(r[p + 1] == s[j]);
                }
            }
        }
    }
}

/// The document engine's store of changes.
#[derive(Debug)]
pub struct Automerge {
    changes: Vec<Change>,
}

impl View for Automerge {
    type V = Seq<ChangeView>;

    closed spec fn view(&self) -> Seq<ChangeView> {
        self.changes.deep_view()
    }
}

impl Automerge {
    pub open spec fn wf(&self) -> bool {
        store_wf(self@) && self@.len() <= MAX_BLOOM_ENTRIES
    }

    /// An empty store.
    pub fn new() -> (r: Automerge)
        ensures
            r@ == Seq::<ChangeView>::empty(),
            r.wf(),
    {
        let r = Automerge { changes: Vec::new() };
        proof {
            assert(r@ =~= Seq::<ChangeView>::empty());
        }
        r
    }

    /// The number of stored changes.
    pub fn num_changes(&self) -> (r: usize)
        ensures
            r == self@.len(),
    {
        proof {
            assert(self@.len() == self.changes@.len());
        }
        self.changes.len()
    }

    /// The index of the change with this hash, if stored.
    fn find_change(&self, hash: &ChangeHash) -> (r: Option<usize>)
        ensures
            match r {
                Some(i) => i < self@.len() && self@[i as int].hash == hash@,
                None => !store_has(self@, hash@),
            },
    {
        proof {
            assert(self@.len() == self.changes@.len());
        }
        let mut i: usize = 0;
        while i < self.changes.len()
            invariant
                0 <= i <= self@.len(),
                self@.len() == self.changes@.len(),
                forall|j: int| 0 <= j < i ==> self@[j].hash != hash@,
            decreases self@.len() - i,
        {
            if crate::hash::cmp_hashes(&self.changes[i].hash, hash) == 0 {
                assert(self@[i as int].hash == hash@);
                return Some(i);
            }
            i = i + 1;
        }
        None
    }

    /// The stored change with this hash, if any.
    pub fn get_change_by_hash(&self, hash: &ChangeHash) -> (r: Option<&Change>)
        ensures
            match r {
                Some(c) => store_has(self@, hash@) && c@.hash == hash@ && exists|i: int|
                    0 <= i < self@.len() && self@[i] == c@,
                None => !store_has(self@, hash@),
            },
    {
        match self.find_change(hash) {
            None => None,
            Some(i) => {
                let c = &self.changes[i];
                proof {
                    assert(self@[i as int] == c@);
                }
                Some(c)
            },
        }
    }

    /// Whether any stored change depends on this hash.
    fn has_dependent(&self, hash: &ChangeHash) -> (r: bool)
        ensures
            r == exists|j: int|
                0 <= j < self@.len() && (#[trigger] self@[j].deps).contains(hash@),
    {
        proof {
            assert(self@.len() == self.changes@.len());
        }
        let mut j: usize = 0;
        while j < self.changes.len()
            invariant
                0 <= j <= self@.len(),
                self@.len() == self.changes@.len(),
                forall|q: int| 0 <= q < j ==> !(#[trigger] self@[q].deps).contains(hash@),
            decreases self@.len() - j,
        {
            if contains_hash(self.changes[j].deps.as_slice(), hash) {
                proof {
                    assert(self@[j as int].deps.contains(hash@));
                }
                return true;
            }
            proof {
                assert(self.changes[j as int]@.deps == self@[j as int].deps);
            }
            j = j + 1;
        }
        false
    }

    /// The current heads, sorted ascending: every stored change that no
    /// stored change depends on.
    pub fn get_heads(&self) -> (r: Vec<ChangeHash>)
        requires
            self.wf(),
        ensures
            lex_sorted_strict(r.deep_view()),
            forall|h: Seq<u8>|
                #![trigger r.deep_view().contains(h)]
                r.deep_view().contains(h) <==> exists|i: int|
                    0 <= i < self@.len() && self@[i].hash == h && is_head(self@, i),
    {
        proof {
            assert(self@.len() == self.changes@.len());
        }
        let mut out: Vec<ChangeHash> = Vec::new();
        proof {
            assert(out.deep_view() =~= Seq::<Seq<u8>>::empty());
        }
        let mut i: usize = 0;
        while i < self.changes.len()
            invariant
                0 <= i <= self@.len(),
                self@.len() == self.changes@.len(),
                lex_sorted_strict(out.deep_view()),
                forall|h: Seq<u8>|
                    out.deep_view().contains(h) <==> exists|q: int|
                        0 <= q < i && self@[q].hash == h && is_head(self@, q),
            decreases self@.len() - i,
    {
            let h = self.changes[i].hash;
            proof {
                assert(h@ == self@[i as int].hash);
            }
            if !self.has_dependent(&h) {
                assert(is_head(self@, i as int));
                let ghost pre = out.deep_view();
                sorted_insert(&mut out, h);
                proof {
                    // The hash of a distinct head never collides: if it was
                    // already present it named an earlier head with the same
                    // hash, which uniqueness forbids, but either way the set
                    // equivalence below still holds.
                    assert forall|x: Seq<u8>|
                        out.deep_view().contains(x) implies (exists|q: int|
                        0 <= q < i + 1 && self@[q].hash == x && is_head(self@, q)) by {
                        if x == h@ {
                            assert(self@[i as int].hash == x && is_head(self@, i as int));
                        } else {
                            assert(pre.contains(x));
                        }
                    }
                    assert forall|x: Seq<u8>|
                        (exists|q: int| 0 <= q < i + 1 && self@[q].hash == x && is_head(self@, q))
                        implies out.deep_view().contains(x) by {
                        let q = choose|q: int|
                            0 <= q < i + 1 && self@[q].hash == x && is_head(self@, q);
                        if q < i {
                            assert(pre.contains(x));
                        }
                    }
                }
            } else {
                proof {
                    assert forall|x: Seq<u8>|
                        (exists|q: int| 0 <= q < i + 1 && self@[q].hash == x && is_head(self@, q))
                        implies out.deep_view().contains(x) by {
                        let q = choose|q: int|
                            0 <= q < i + 1 && self@[q].hash == x && is_head(self@, q);
                        assert(q != i);
                    }
                }
            }
            i = i + 1;
        }
        out
    }
    /// One flag per stored change: whether `since` implies it. Computed
    /// back to front, so each change can consult its dependents' flags.
    fn implied_flags(&self, since: &[ChangeHash]) -> (r: Vec<bool>)
        ensures
            r@.len() == self@.len(),
            forall|q: int|
                0 <= q < self@.len() ==> r@[q] == implied(
                    self@,
                    as_set(since.deep_view()),
                    q,
                ),
    {
        proof {
            assert(self@.len() == self.changes@.len());
        }
        let ghost st = as_set(since.deep_view());
        let n = self.changes.len();
        let mut flags: Vec<bool> = Vec::new();
        let mut z: usize = 0;
        while z < n
            invariant
                0 <= z <= n,
                flags@.len() == z,
            decreases n - z,
        {
            flags.push(false);
            z = z + 1;
        }
        let mut idx = n;
        while idx > 0
            invariant
                0 <= idx <= n,
                n == self@.len(),
                n == self.changes@.len(),
                flags@.len() == n,
                st == as_set(since.deep_view()),
                forall|q: int| idx <= q < n ==> flags@[q] == implied(self@, st, q),
            decreases idx,
        {
            idx = idx - 1;
            let h = self.changes[idx].hash;
            proof {
                assert(h@ == self@[idx as int].hash);
            }
            let mut hit = contains_hash(since, &h);
            let mut j = idx + 1;
            while j < n
                invariant
                    idx < j <= n,
                    n == self@.len(),
                    n == self.changes@.len(),
                    flags@.len() == n,
                    st == as_set(since.deep_view()),
                    h@ == self@[idx as int].hash,
                    forall|q: int| idx < q < n ==> flags@[q] == implied(self@, st, q),
                    hit <==> st.contains(h@) || exists|k: int|
                        idx < k < j && implied(self@, st, k) && #[trigger] self@[k].deps.contains(
                            h@,
                        ),
                decreases n - j,
            {
                if flags[j] && contains_hash(self.changes[j].deps.as_slice(), &h) {
                    proof {
                        assert(self@[j as int].deps.contains(h@));
                        assert(implied(self@, st, j as int));
                    }
                    hit = true;
                } else {
                    proof {
                        assert(self.changes[j as int]@.deps == self@[j as int].deps);
                    }
                }
                j = j + 1;
            }
            proof {
                let s = self@;
                assert(0 <= idx < s.len());
                assert(h@ == s[idx as int].hash);
                assert(hit <==> (st.contains(h@) || exists|k: int|
                    idx < k < n && implied(s, st, k) && #[trigger] s[k].deps.contains(h@)));
                if hit {
                    if !st.contains(h@) {
                        let k = choose|k: int|
                            idx < k < n && implied(s, st, k) && #[trigger] s[k].deps.contains(h@);
                        lemma_implied_step(s, st, idx as int, k);
                    }
                } else {
                    if implied(s, st, idx as int) {
                        lemma_implied_inv(s, st, idx as int);
                        if !st.contains(s[idx as int].hash) {
                            let k = choose|k: int|
                                idx < k < s.len() && implied(s, st, k)
                                    && #[trigger] s[k].deps.contains(s[idx as int].hash);
                            assert(false);
                        }
                    }
                }
            }
            flags.set(idx, hit);
            proof {
                assert(flags@[idx as int] == implied(self@, st, idx as int));
            }
        }
        flags
    }

    /// Every stored change not implied by `since`, in store order.
    pub fn get_changes(&self, since: &[ChangeHash]) -> (r: Vec<Change>)
        requires
            self.wf(),
        ensures
            r.deep_view() == changes_since(self@, as_set(since.deep_view()), 0),
    {
        proof {
            assert(self@.len() == self.changes@.len());
        }
        let ghost st = as_set(since.deep_view());
        let flags = self.implied_flags(since);
        let mut out: Vec<Change> = Vec::new();
        proof {
            assert(out.deep_view() =~= Seq::<ChangeView>::empty());
            assert(out.deep_view() + changes_since(self@, st, 0) =~= changes_since(self@, st, 0));
        }
        let mut i: usize = 0;
        while i < self.changes.len()
            invariant
                0 <= i <= self@.len(),
                self@.len() == self.changes@.len(),
                flags@.len() == self@.len(),
                st == as_set(since.deep_view()),
                forall|q: int| 0 <= q < self@.len() ==> flags@[q] == implied(self@, st, q),
                changes_since(self@, st, 0) == out.deep_view() + changes_since(
                    self@,
                    st,
                    i as int,
                ),
            decreases self@.len() - i,
        {
            if !flags[i] {
                let ghost pre = out.deep_view();
                out.push(self.changes[i].clone());
                proof {
                    assert(out.deep_view() =~= pre.push(self@[i as int]));
                    assert(pre + (seq![self@[i as int]] + changes_since(self@, st, i + 1))
                        =~= out.deep_view() + changes_since(self@, st, i + 1));
                }
            }
            i = i + 1;
        }
        proof {
            assert(changes_since(self@, st, self@.len() as int) == Seq::<ChangeView>::empty());
            assert(out.deep_view() + Seq::<ChangeView>::empty() =~= out.deep_view());
        }
        out
    }

    /// The given heads we cannot resolve locally, sorted ascending:
    /// what we must explicitly ask the peer for.
    pub fn get_missing_deps(&self, heads: &[ChangeHash]) -> (r: Vec<ChangeHash>)
        ensures
            lex_sorted_strict(r.deep_view()),
            forall|h: Seq<u8>|
                #![trigger r.deep_view().contains(h)]
                r.deep_view().contains(h) <==> heads.deep_view().contains(h) && !store_has(
                    self@,
                    h,
                ),
    {
        let ghost hv = heads.deep_view();
        let mut out: Vec<ChangeHash> = Vec::new();
        proof {
            assert(out.deep_view() =~= Seq::<Seq<u8>>::empty());
            assert(hv.len() == heads@.len());
        }
        let mut i: usize = 0;
        while i < heads.len()
            invariant
                0 <= i <= heads@.len(),
                hv == heads.deep_view(),
                hv.len() == heads@.len(),
                lex_sorted_strict(out.deep_view()),
                forall|h: Seq<u8>|
                    out.deep_view().contains(h) <==> (exists|q: int|
                        0 <= q < i && hv[q] == h) && !store_has(self@, h),
            decreases heads@.len() - i,
        {
            let ghost pre = out.deep_view();
            let missing = match self.find_change(&heads[i]) {
                None => true,
                Some(_) => false,
            };
            proof {
                assert(hv[i as int] == heads@[i as int]@);
            }
            if missing {
                sorted_insert(&mut out, heads[i]);
            }
            proof {
                assert forall|h: Seq<u8>|
                    out.deep_view().contains(h) implies ((exists|q: int|
                    0 <= q < i + 1 && hv[q] == h) && !store_has(self@, h)) by {
                    if missing && h == hv[i as int] {
                        assert(hv[i as int] == h);
                    } else {
                        assert(pre.contains(h));
                    }
                }
                assert forall|h: Seq<u8>|
                    ((exists|q: int| 0 <= q < i + 1 && hv[q] == h) && !store_has(self@, h))
                    implies out.deep_view().contains(h) by {
                    let q = choose|q: int| 0 <= q < i + 1 && hv[q] == h;
                    if q < i {
                        assert(pre.contains(h));
                        if missing {
                        } else {
                            assert(out.deep_view() == pre);
                        }
                    } else {
                        assert(h == hv[i as int]);
                        assert(missing);
                    }
                }
            }
            i = i + 1;
        }
        proof {
            assert forall|h: Seq<u8>|
                out.deep_view().contains(h) <==> hv.contains(h) && !store_has(self@, h) by {
                if hv.contains(h) {
                    let q = choose|q: int| 0 <= q < hv.len() && hv[q] == h;
                    assert(0 <= q < heads@.len() && hv[q] == h);
                }
            }
        }
        out
    }
}


/// The first dependency in `deps` that the store lacks.
pub open spec fn first_missing_dep(s: Seq<ChangeView>, deps: Seq<Seq<u8>>) -> Option<Seq<u8>>
    decreases deps.len(),
{
    if deps.len() == 0 {
        None
    } else if !store_has(s, deps[0]) {
        Some(deps[0])
    } else {
        first_missing_dep(s, deps.skip(1))
    }
}

proof fn lemma_first_missing_none(s: Seq<ChangeView>, deps: Seq<Seq<u8>>)
    requires
        first_missing_dep(s, deps) is None,
    ensures
        forall|k: int| 0 <= k < deps.len() ==> store_has(s, #[trigger] deps[k]),
    decreases deps.len(),
{
    if deps.len() > 0 {
        lemma_first_missing_none(s, deps.skip(1));
        assert forall|k: int| 0 <= k < deps.len() implies store_has(s, #[trigger] deps[k]) by {
            if k > 0 {
                assert(deps.skip(1)[k - 1] == deps[k]);
            }
        }
    }
}

/// Applying a batch: a change already present is skipped, one whose
/// dependencies are all present is appended, and the first change with
/// a missing dependency rejects the whole batch with that dependency.
pub open spec fn spec_apply(s: Seq<ChangeView>, cs: Seq<ChangeView>) -> Result<
    Seq<ChangeView>,
    Seq<u8>,
>
    decreases cs.len(),
{
    if cs.len() == 0 {
        Ok(s)
    } else if store_has(s, cs[0].hash) {
        spec_apply(s, cs.skip(1))
    } else {
        match first_missing_dep(s, cs[0].deps) {
            Some(d) => Err(d),
            None => spec_apply(s.push(cs[0]), cs.skip(1)),
        }
    }
}

/// Applying extends the store in order and preserves its invariant.
pub proof fn lemma_spec_apply(s: Seq<ChangeView>, cs: Seq<ChangeView>)
    requires
        store_wf(s),
    ensures
        match spec_apply(s, cs) {
            Ok(t) => {
                &&& s.len() <= t.len() <= s.len() + cs.len()
                &&& forall|i: int| 0 <= i < s.len() ==> t[i] == s[i]
                &&& store_wf(t)
            },
            Err(_) => true,
        },
    decreases cs.len(),
{
    if cs.len() > 0 {
        if store_has(s, cs[0].hash) {
            lemma_spec_apply(s, cs.skip(1));
        } else {
            match first_missing_dep(s, cs[0].deps) {
                Some(_) => {},
                None => {
                    lemma_first_missing_none(s, cs[0].deps);
                    let t = s.push(cs[0]);
                    assert(store_wf(t)) by {
                        assert forall|i: int, j: int|
                            0 <= i < j < t.len() implies t[i].hash != t[j].hash by {
                            if j == s.len() {
                                assert(t[j] == cs[0]);
                                assert(t[i] == s[i]);
                                if t[i].hash == t[j].hash {
                                    assert(store_has(s, cs[0].hash));
                                }
                            }
                        }
                        assert forall|i: int, k: int|
                            0 <= i < t.len() && 0 <= k < t[i].deps.len() implies #[trigger]
                        dep_before(t, i, k) by {
                            if i == s.len() {
                                assert(store_has(s, cs[0].deps[k]));
                                let j = choose|j: int|
                                    0 <= j < s.len() && s[j].hash == cs[0].deps[k];
                                assert(t[j].hash == t[i].deps[k]);
                            } else {
                                assert(t[i] == s[i]);
                                assert(t[i].deps[k] == s[i].deps[k]);
                                assert(dep_before(s, i, k));
                                let j = choose|j: int|
                                    0 <= j < i && s[j].hash == s[i].deps[k];
                                assert(t[j].hash == t[i].deps[k]);
                            }
                        }
                    }
                    lemma_spec_apply(t, cs.skip(1));
                },
            }
        }
    }
}

/// A hash is in a concatenation exactly when it is in one part.
proof fn lemma_store_has_concat(a: Seq<ChangeView>, b: Seq<ChangeView>, h: Seq<u8>)
    ensures
        store_has(a + b, h) <==> store_has(a, h) || store_has(b, h),
{
    if store_has(a, h) {
        let i = choose|i: int| 0 <= i < a.len() && a[i].hash == h;
        assert((a + b)[i].hash == h);
    }
    if store_has(b, h) {
        let i = choose|i: int| 0 <= i < b.len() && b[i].hash == h;
        assert((a + b)[a.len() + i].hash == h);
    }
    if store_has(a + b, h) {
        let i = choose|i: int| 0 <= i < (a + b).len() && (a + b)[i].hash == h;
        if i < a.len() {
            assert(a[i].hash == h);
        } else {
            assert(b[i - a.len()].hash == h);
        }
    }
}

/// Whether the vector holds a change with this hash.
pub(crate) fn vec_has_change(list: &Vec<Change>, h: &ChangeHash) -> (r: bool)
    ensures
        r == store_has(list.deep_view(), h@),
{
    let ghost dv = list.deep_view();
    proof {
        assert(dv.len() == list@.len());
    }
    let mut i: usize = 0;
    while i < list.len()
        invariant
            0 <= i <= list@.len(),
            dv == list.deep_view(),
            dv.len() == list@.len(),
            forall|j: int| 0 <= j < i ==> dv[j].hash != h@,
        decreases list@.len() - i,
    {
        if crate::hash::cmp_hashes(&list[i].hash, h) == 0 {
            assert(dv[i as int].hash == h@);
            return true;
        }
        i = i + 1;
    }
    false
}

impl Automerge {
    /// Applies a batch of changes: already-stored changes are skipped,
    /// new ones appended in order. A change whose dependencies are not
    /// met, or a batch that would overfill the store, is rejected whole
    /// and the store is left untouched.
    #[verifier::loop_isolation(false)]
    pub fn apply_changes(&mut self, changes: Vec<Change>) -> (r: Result<(), ApplyError>)
        requires
            old(self).wf(),
        ensures
            final(self).wf(),
            match r {
                Ok(_) => {
                    &&& old(self)@.len() + changes.deep_view().len() <= MAX_BLOOM_ENTRIES
                    &&& spec_apply(old(self)@, changes.deep_view()) == Ok::<
                        Seq<ChangeView>,
                        Seq<u8>,
                    >(final(self)@)
                },
                Err(e) => {
                    &&& final(self)@ == old(self)@
                    &&& match e {
                        ApplyError::TooManyChanges => old(self)@.len() + changes.deep_view().len()
                            > MAX_BLOOM_ENTRIES,
                        ApplyError::MissingDep(d) => old(self)@.len() + changes.deep_view().len()
                            <= MAX_BLOOM_ENTRIES && spec_apply(old(self)@, changes.deep_view())
                            == Err::<Seq<ChangeView>, Seq<u8>>(d@),
                    }
                },
            },
    {
        let ghost s0 = self@;
        let ghost cs = changes.deep_view();
        proof {
            assert(cs.len() == changes@.len());
            assert(self@.len() == self.changes@.len());
        }
        if changes.len() > MAX_BLOOM_ENTRIES - self.changes.len() {
            return Err(ApplyError::TooManyChanges);
        }
        let mut accepted: Vec<Change> = Vec::new();
        proof {
            assert(s0 + accepted.deep_view() =~= s0);
            assert(cs.skip(0) =~= cs);
        }
        let mut i: usize = 0;
        while i < changes.len()
            invariant
                0 <= i <= changes@.len(),
                self@ == s0,
                accepted.deep_view().len() <= i,
                spec_apply(s0, cs) == spec_apply(s0 + accepted.deep_view(), cs.skip(i as int)),
            decreases changes@.len() - i,
        {
            let ghost virt = s0 + accepted.deep_view();
            let ghost c_v = cs[i as int];
            proof {
                assert(cs.skip(i as int)[0] == cs[i as int]);
                assert(cs.skip(i as int).skip(1) =~= cs.skip(i as int + 1));
                assert(changes@[i as int]@ == cs[i as int]);
            }
            let c = &changes[i];
            let in_store = match self.find_change(&c.hash) {
                Some(_) => true,
                None => false,
            };
            let in_accepted = vec_has_change(&accepted, &c.hash);
            proof {
                lemma_store_has_concat(s0, accepted.deep_view(), c_v.hash);
                if in_store {
                    assert(store_has(s0, c_v.hash));
                }
            }
            if in_store || in_accepted {
                proof {
                    assert(store_has(virt, c_v.hash));
                    assert(spec_apply(virt, cs.skip(i as int)) == spec_apply(
                        virt,
                        cs.skip(i as int + 1),
                    ));
                }
            } else {
                proof {
                    assert(!store_has(virt, c_v.hash));
                }
                let ghost deps_v = c_v.deps;
                let mut k: usize = 0;
                proof {
                    assert(deps_v.skip(0) =~= deps_v);
                    assert(deps_v.len() == c.deps@.len());
                }
                while k < c.deps.len()
                    invariant
                        0 <= k <= c.deps@.len(),
                        first_missing_dep(virt, deps_v) == first_missing_dep(
                            virt,
                            deps_v.skip(k as int),
                        ),
                    decreases c.deps@.len() - k,
                {
                    proof {
                        assert(deps_v.skip(k as int)[0] == deps_v[k as int]);
                        assert(deps_v.skip(k as int).skip(1) =~= deps_v.skip(k as int + 1));
                        assert(c.deps@[k as int]@ == deps_v[k as int]);
                    }
                    let d = &c.deps[k];
                    let dep_in_store = match self.find_change(d) {
                        Some(_) => true,
                        None => false,
                    };
                    let dep_in_accepted = vec_has_change(&accepted, d);
                    proof {
                        lemma_store_has_concat(s0, accepted.deep_view(), d@);
                        if dep_in_store {
                            assert(store_has(s0, d@));
                        }
                    }
                    if !(dep_in_store || dep_in_accepted) {
                        proof {
                            assert(!store_has(virt, deps_v[k as int]));
                            assert(first_missing_dep(virt, deps_v.skip(k as int)) == Some(
                                deps_v[k as int],
                            ));
                            assert(spec_apply(virt, cs.skip(i as int)) == Err::<
                                Seq<ChangeView>,
                                Seq<u8>,
                            >(deps_v[k as int]));
                        }
                        return Err(ApplyError::MissingDep(*d));
                    }
                    proof {
                        assert(store_has(virt, deps_v[k as int]));
                    }
                    k = k + 1;
                }
                proof {
                    assert(deps_v.skip(c.deps@.len() as int) =~= Seq::<Seq<u8>>::empty());
                    assert(first_missing_dep(virt, deps_v) is None);
                }
                let ghost acc_pre = accepted.deep_view();
                accepted.push(c.clone());
                proof {
                    assert(accepted.deep_view() =~= acc_pre.push(c_v));
                    assert(s0 + accepted.deep_view() =~= virt.push(c_v));
                    assert(spec_apply(virt, cs.skip(i as int)) == spec_apply(
                        virt.push(c_v),
                        cs.skip(i as int + 1),
                    ));
                }
            }
            i = i + 1;
        }
        proof {
            assert(cs.skip(changes@.len() as int) =~= Seq::<ChangeView>::empty());
            assert(spec_apply(s0 + accepted.deep_view(), Seq::<ChangeView>::empty()) == Ok::<
                Seq<ChangeView>,
                Seq<u8>,
            >(s0 + accepted.deep_view()));
        }
        let ghost acc_dv = accepted.deep_view();
        self.changes.append(&mut accepted);
        proof {
            assert(self@ =~= s0 + acc_dv);
            lemma_spec_apply(s0, cs);
        }
        Ok(())
    }

    /// Removes from `sent` every hash the peer's heads already imply it
    /// has, keeping the set bounded over a session.
    #[verifier::loop_isolation(false)]
    pub fn filter_changes(&self, heads: &[ChangeHash], sent: &mut Vec<ChangeHash>)
        requires
            self.wf(),
            lex_sorted_strict(old(sent).deep_view()),
        ensures
            lex_sorted_strict(final(sent).deep_view()),
            forall|h: Seq<u8>|
                #![trigger final(sent).deep_view().contains(h)]
                final(sent).deep_view().contains(h) <==> old(sent).deep_view().contains(h)
                    && !hash_implied(self@, as_set(heads.deep_view()), h),
    {
        let ghost st = as_set(heads.deep_view());
        let ghost sv = sent.deep_view();
        proof {
            assert(sv.len() == sent@.len());
        }
        let flags = self.implied_flags(heads);
        let mut out: Vec<ChangeHash> = Vec::new();
        proof {
            assert(out.deep_view() =~= Seq::<Seq<u8>>::empty());
        }
        let mut i: usize = 0;
        while i < sent.len()
            invariant
                0 <= i <= sent@.len(),
                lex_sorted_strict(out.deep_view()),
                forall|h: Seq<u8>|
                    out.deep_view().contains(h) <==> (exists|q: int|
                        0 <= q < i && sv[q] == h) && !hash_implied(self@, st, h),
                forall|p: int, q: int|
                    0 <= p < out.deep_view().len() && i <= q < sv.len() ==> crate::hash::lex_lt(
                        out.deep_view()[p],
                        sv[q],
                    ),
            decreases sent@.len() - i,
        {
            let ghost h_v = sv[i as int];
            proof {
                assert(sent@[i as int]@ == sv[i as int]);
            }
            let mut keep = false;
            match self.find_change(&sent[i]) {
                None => {
                    keep = true;
                    proof {
                        if hash_implied(self@, st, h_v) {
                            let q = choose|q: int|
                                0 <= q < self@.len() && self@[q].hash == h_v && implied(
                                    self@,
                                    st,
                                    q,
                                );
                            assert(store_has(self@, h_v));
                        }
                        assert(keep <==> !hash_implied(self@, st, h_v));
                    }
                },
                Some(j) => {
                    keep = !flags[j];
                    proof {
                        if hash_implied(self@, st, h_v) {
                            let q = choose|q: int|
                                0 <= q < self@.len() && self@[q].hash == h_v && implied(
                                    self@,
                                    st,
                                    q,
                                );
                            assert(q == j);
                        }
                        if implied(self@, st, j as int) {
                            assert(hash_implied(self@, st, h_v));
                        }
                        assert(keep <==> !hash_implied(self@, st, h_v));
                    }
                },
            };
            assert(keep <==> !hash_implied(self@, st, h_v));
            let ghost pre = out.deep_view();
            if keep {
                out.push(sent[i]);
                proof {
                    assert(out.deep_view() =~= pre.push(h_v));
                }
            }
            proof {
                assert forall|h: Seq<u8>|
                    out.deep_view().contains(h) implies ((exists|q: int|
                    0 <= q < i + 1 && sv[q] == h) && !hash_implied(self@, st, h)) by {
                    if keep && h == h_v {
                        assert(sv[i as int] == h);
                    } else {
                        assert(pre.contains(h));
                    }
                }
                assert forall|h: Seq<u8>|
                    ((exists|q: int| 0 <= q < i + 1 && sv[q] == h) && !hash_implied(
                        self@,
                        st,
                        h,
                    )) implies out.deep_view().contains(h) by {
                    let q = choose|q: int| 0 <= q < i + 1 && sv[q] == h;
                    if q < i {
                        assert(pre.contains(h));
                        let m = choose|m: int| 0 <= m < pre.len() && pre[m] == h;
                        assert(out.deep_view()[m] == h);
                    } else {
                        assert(h == h_v && keep);
                        assert(out.deep_view()[out.deep_view().len() - 1] == h);
                    }
                }
            }
            i = i + 1;
        }
        *sent = out;
        proof {
            assert forall|h: Seq<u8>|
                final(sent).deep_view().contains(h) <==> sv.contains(h) && !hash_implied(
                    self@,
                    st,
                    h,
                ) by {
                if sv.contains(h) {
                    let q = choose|q: int| 0 <= q < sv.len() && sv[q] == h;
                    assert(0 <= q < sent@.len() || true);
                }
            }
        }
    }
}

} // verus!
