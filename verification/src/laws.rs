//! The protocol's laws, stated and proved over the same specification
//! functions that the executable functions' contracts use.

use vstd::prelude::*;

use crate::change::ChangeView;
use crate::doc::{
    as_set, changes_since, dep_before, hash_implied, idx_of, implied, is_head,
    lemma_implied_step, store_has, store_wf,
};
use crate::state::{HaveView, StateView};
use crate::sync::{
    all_heads_known, cand_adj, cand_has, drop_sent, filter_cand, generate_is_silent, hashes_of,
    heads_set, is_heads_rep, need_extras, send_seed, send_set, spec_changes_to_send,
    spec_shared_after, spec_to_send, reset_needed, their_heads_or_empty, union_last_sync,
};

verus! {

/// Every stored change is an ancestor of some current head: walking up
/// from any change along its dependents must end at a change nothing
/// depends on.
pub proof fn lemma_all_implied_by_heads(s: Seq<ChangeView>, i: int)
    requires
        store_wf(s),
        0 <= i < s.len(),
    ensures
        implied(s, heads_set(s), i),
    decreases s.len() - i,
{
    if is_head(s, i) {
        assert(heads_set(s).contains(s[i].hash));
    } else {
        let j = choose|j: int|
            0 <= j < s.len() && (#[trigger] s[j].deps).contains(s[i].hash);
        let k = choose|k: int| 0 <= k < s[j].deps.len() && s[j].deps[k] == s[i].hash;
        assert(dep_before(s, j, k));
        let jj = choose|jj: int| 0 <= jj < j && s[jj].hash == s[j].deps[k];
        assert(jj == i);
        assert(i < j);
        lemma_all_implied_by_heads(s, j);
        lemma_implied_step(s, heads_set(s), i, j);
    }
}

/// A run over an all-implying sync point is empty.
pub proof fn lemma_changes_since_all_implied(s: Seq<ChangeView>, st: Set<Seq<u8>>, i: int)
    requires
        forall|j: int| i <= j < s.len() ==> implied(s, st, j),
    ensures
        changes_since(s, st, i).len() == 0,
    decreases s.len() - i,
{
    if 0 <= i < s.len() {
        lemma_changes_since_all_implied(s, st, i + 1);
    }
}

/// Silence at quiescence. After a successful exchange the peers have
/// announced equal heads, asked for nothing, and summarized their
/// knowledge at those very heads; from such a state the generator has
/// nothing to say.
pub proof fn lemma_silence_at_quiescence(s: Seq<ChangeView>, st: StateView, hs: Seq<HaveView>)
    requires
        store_wf(s),
        is_heads_rep(s, st.last_sent_heads),
        st.their_heads == Some(st.last_sent_heads),
        st.their_need == Some(Seq::<Seq<u8>>::empty()),
        st.their_have == Some(hs),
        hs.len() == 1,
        hs[0].last_sync == st.last_sent_heads,
    ensures
        generate_is_silent(s, st),
{
    let rep = st.last_sent_heads;
    // The summary rests on heads we hold, so no reset is pending.
    assert(!reset_needed(s, st)) by {
        if exists|h: Seq<u8>| #[trigger] hs[0].last_sync.contains(h) && !store_has(s, h) {
            let h = choose|h: Seq<u8>| #[trigger] hs[0].last_sync.contains(h) && !store_has(s, h);
            let i = choose|i: int| 0 <= i < s.len() && s[i].hash == h && is_head(s, i);
            assert(store_has(s, h));
        }
    }
    // We need nothing: every announced head is one of ours.
    assert forall|h: Seq<u8>| !crate::sync::spec_our_need(s, st).contains(h) by {
        if their_heads_or_empty(st).contains(h) {
            let i = choose|i: int| 0 <= i < s.len() && s[i].hash == h && is_head(s, i);
            assert(store_has(s, h));
        }
    }
    // Nothing to send: the peer's sync point implies every change.
    assert(spec_to_send(s, st).len() == 0) by {
        let ust = union_last_sync(hs);
        assert(ust =~= heads_set(s)) by {
            assert forall|h: Seq<u8>| ust.contains(h) implies heads_set(s).contains(h) by {
                let i = choose|i: int|
                    0 <= i < hs.len() && #[trigger] hs[i].last_sync.contains(h);
                assert(rep.contains(h));
            }
            assert forall|h: Seq<u8>| heads_set(s).contains(h) implies ust.contains(h) by {
                assert(hs[0].last_sync.contains(h));
            }
        }
        assert forall|j: int| 0 <= j < s.len() implies implied(s, ust, j) by {
            lemma_all_implied_by_heads(s, j);
        }
        lemma_changes_since_all_implied(s, ust, 0);
        let cand = changes_since(s, ust, 0);
        assert(filter_cand(cand, send_set(cand, send_seed(cand, hs, Seq::empty())), 0)
            == Seq::<ChangeView>::empty());
        assert(need_extras(s, cand, Seq::empty(), 0) == Seq::<ChangeView>::empty());
        assert(spec_changes_to_send(s, hs, Seq::empty()) =~= Seq::<ChangeView>::empty());
    }
}

/// Each element of the filtered run is a selected candidate, and every
/// selected candidate appears in it.
#[verifier::spinoff_prover]
pub proof fn lemma_filter_cand_elems(cand: Seq<ChangeView>, sel: Set<Seq<u8>>, i: int)
    requires
        0 <= i,
    ensures
        forall|p: int|
            0 <= p < filter_cand(cand, sel, i).len() ==> exists|j: int|
                i <= j < cand.len() && cand[j] == #[trigger] filter_cand(cand, sel, i)[p]
                    && sel.contains(cand[j].hash),
        forall|j: int|
            i <= j < cand.len() && sel.contains(cand[j].hash) ==> exists|p: int|
                0 <= p < filter_cand(cand, sel, i).len() && filter_cand(cand, sel, i)[p] == cand[
                    j
                ],
    decreases cand.len() - i,
{
    let r = filter_cand(cand, sel, i);
    if 0 <= i < cand.len() {
        lemma_filter_cand_elems(cand, sel, i + 1);
        let rr = filter_cand(cand, sel, i + 1);
        if sel.contains(cand[i].hash) {
            assert(r == seq![cand[i]] + rr);
            assert(r[0] == cand[i]);
            assert forall|p: int|
                0 <= p < r.len() implies exists|j: int|
                i <= j < cand.len() && cand[j] == #[trigger] r[p] && sel.contains(
                    cand[j].hash,
                ) by {
                if p == 0 {
                    assert(cand[i] == r[p]);
                } else {
                    assert(r[p] == rr[p - 1]);
                    let j = choose|j: int|
                        i + 1 <= j < cand.len() && cand[j] == rr[p - 1] && sel.contains(
                            cand[j].hash,
                        );
                    assert(cand[j] == r[p] && sel.contains(cand[j].hash));
                }
            }
            assert forall|j: int|
                i <= j < cand.len() && sel.contains(cand[j].hash) implies exists|p: int|
                0 <= p < r.len() && r[p] == cand[j] by {
                if j == i {
                    assert(r[0] == cand[j]);
                } else {
                    let p = choose|p: int| 0 <= p < rr.len() && rr[p] == cand[j];
                    assert(r[p + 1] == cand[j]);
                }
            }
        } else {
            assert forall|p: int|
                0 <= p < r.len() implies exists|j: int|
                i <= j < cand.len() && cand[j] == #[trigger] r[p] && sel.contains(
                    cand[j].hash,
                ) by {
                assert(r[p] == rr[p]);
                let j = choose|j: int|
                    i + 1 <= j < cand.len() && cand[j] == rr[p] && sel.contains(cand[j].hash);
                assert(cand[j] == r[p] && sel.contains(cand[j].hash));
            }
            assert forall|j: int|
                i <= j < cand.len() && sel.contains(cand[j].hash) implies exists|p: int|
                0 <= p < r.len() && r[p] == cand[j] by {
                assert(j != i);
                let p = choose|p: int| 0 <= p < rr.len() && rr[p] == cand[j];
                assert(r[p] == cand[j]);
            }
        }
    }
}

/// Each explicit-need extra is a stored change outside the candidate
/// run, hence one the sync point already implies.
pub proof fn lemma_need_extras_elems(
    s: Seq<ChangeView>,
    cand: Seq<ChangeView>,
    need: Seq<Seq<u8>>,
    i: int,
)
    requires
        0 <= i,
    ensures
        forall|p: int|
            0 <= p < need_extras(s, cand, need, i).len() ==> exists|j: int|
                0 <= j < s.len() && s[j] == #[trigger] need_extras(s, cand, need, i)[p]
                    && !cand_has(cand, s[j].hash),
    decreases need.len() - i,
{
    let r = need_extras(s, cand, need, i);
    if 0 <= i < need.len() {
        lemma_need_extras_elems(s, cand, need, i + 1);
        let rr = need_extras(s, cand, need, i + 1);
        if !cand_has(cand, need[i]) && store_has(s, need[i]) {
            let jj = idx_of(s, need[i]);
            assert(0 <= jj < s.len() && s[jj].hash == need[i]);
            assert forall|p: int|
                0 <= p < r.len() implies exists|j: int|
                0 <= j < s.len() && s[j] == #[trigger] r[p] && !cand_has(cand, s[j].hash) by {
                if p == 0 {
                    assert(s[jj] == r[p] && !cand_has(cand, s[jj].hash));
                } else {
                    assert(r[p] == rr[p - 1]);
                    let j = choose|j: int|
                        0 <= j < s.len() && s[j] == rr[p - 1] && !cand_has(cand, s[j].hash);
                    assert(s[j] == r[p] && !cand_has(cand, s[j].hash));
                }
            }
        }
    }
}

/// The element at one position of the unimplied run is an unimplied
/// stored change.
proof fn lemma_changes_since_elem_at(s: Seq<ChangeView>, st: Set<Seq<u8>>, i: int, p: int)
    requires
        0 <= i,
        0 <= p < changes_since(s, st, i).len(),
    ensures
        exists|j: int|
            i <= j < s.len() && s[j] == changes_since(s, st, i)[p] && !implied(s, st, j),
    decreases s.len() - i,
{
    let r = changes_since(s, st, i);
    if 0 <= i < s.len() {
        let rr = changes_since(s, st, i + 1);
        if implied(s, st, i) {
            lemma_changes_since_elem_at(s, st, i + 1, p);
            let j = choose|j: int| i + 1 <= j < s.len() && s[j] == rr[p] && !implied(s, st, j);
            assert(i <= j < s.len() && s[j] == r[p] && !implied(s, st, j));
        } else {
            if p == 0 {
                assert(s[i] == r[p] && !implied(s, st, i));
            } else {
                lemma_changes_since_elem_at(s, st, i + 1, p - 1);
                let j = choose|j: int|
                    i + 1 <= j < s.len() && s[j] == rr[p - 1] && !implied(s, st, j);
                assert(i <= j < s.len() && s[j] == r[p] && !implied(s, st, j));
            }
        }
    }
}

/// An unimplied stored change appears in the unimplied run.
proof fn lemma_changes_since_covers(s: Seq<ChangeView>, st: Set<Seq<u8>>, i: int, j: int)
    requires
        0 <= i <= j < s.len(),
        !implied(s, st, j),
    ensures
        exists|p: int|
            0 <= p < changes_since(s, st, i).len() && changes_since(s, st, i)[p] == s[j],
    decreases s.len() - i,
{
    let r = changes_since(s, st, i);
    let rr = changes_since(s, st, i + 1);
    if i == j {
        assert(r[0] == s[j]);
    } else {
        lemma_changes_since_covers(s, st, i + 1, j);
        let p = choose|p: int| 0 <= p < rr.len() && rr[p] == s[j];
        if implied(s, st, i) {
            assert(r[p] == s[j]);
        } else {
            assert(r[p + 1] == s[j]);
        }
    }
}

/// The filtered run carries a change with this hash when some selected
/// candidate carries it.
proof fn lemma_filter_cand_covers(cand: Seq<ChangeView>, sel: Set<Seq<u8>>, i: int, j: int)
    requires
        0 <= i <= j < cand.len(),
        sel.contains(cand[j].hash),
    ensures
        cand_has(filter_cand(cand, sel, i), cand[j].hash),
    decreases cand.len() - i,
{
    let r = filter_cand(cand, sel, i);
    let rr = filter_cand(cand, sel, i + 1);
    if i == j {
        assert(r[0] == cand[j]);
        assert(r[0].hash == cand[j].hash);
    } else {
        lemma_filter_cand_covers(cand, sel, i + 1, j);
        let p = choose|p: int| 0 <= p < rr.len() && rr[p].hash == cand[j].hash;
        if sel.contains(cand[i].hash) {
            assert(r[p + 1].hash == cand[j].hash);
        } else {
            assert(r[p].hash == cand[j].hash);
        }
    }
}

/// Dependency closure for the selected candidates: every dependency of
/// a candidate whose hash lies in an adjacency-closed selection is
/// itself selected — and so rides in the same message — or is already
/// implied by the peer's sync points. The generator's send set is such
/// a selection, so the receiver can always apply what arrives.
#[verifier::spinoff_prover]
#[verifier::rlimit(100)]
pub proof fn lemma_selection_dep_closed(
    s: Seq<ChangeView>,
    ust: Set<Seq<u8>>,
    sel: Set<Seq<u8>>,
    jc: int,
    k: int,
)
    requires
        store_wf(s),
        forall|a: Seq<u8>, b: Seq<u8>|
            sel.contains(a) && cand_has(changes_since(s, ust, 0), b) && #[trigger] cand_adj(
                changes_since(s, ust, 0),
                a,
                b,
            ) ==> sel.contains(b),
        0 <= jc < changes_since(s, ust, 0).len(),
        sel.contains(changes_since(s, ust, 0)[jc].hash),
        0 <= k < changes_since(s, ust, 0)[jc].deps.len(),
    ensures
        cand_has(
            filter_cand(changes_since(s, ust, 0), sel, 0),
            changes_since(s, ust, 0)[jc].deps[k],
        ) || hash_implied(s, ust, changes_since(s, ust, 0)[jc].deps[k]),
{
    let cand = changes_since(s, ust, 0);
    let c = cand[jc];
    let d = c.deps[k];
    lemma_changes_since_elem_at(s, ust, 0, jc);
    let ic = choose|j: int| 0 <= j < s.len() && s[j] == cand[jc] && !implied(s, ust, j);
    let kk = choose|kk: int| 0 <= kk < s[ic].deps.len() && s[ic].deps[kk] == d;
    assert(dep_before(s, ic, kk));
    let id = choose|j: int| 0 <= j < ic && s[j].hash == s[ic].deps[kk];
    if implied(s, ust, id) {
        assert(hash_implied(s, ust, d));
    } else {
        lemma_changes_since_covers(s, ust, 0, id);
        let pd = choose|p2: int| 0 <= p2 < cand.len() && cand[p2] == s[id];
        assert(cand_has(cand, d)) by {
            assert(cand[pd].hash == d);
        }
        assert(cand[jc].deps.contains(d)) by {
            assert(cand[jc].deps[k] == d);
        }
        assert(cand_adj(cand, cand[jc].hash, d)) by {
            // The adjacency witness needs both disjuncts' terms in scope.
            let other_shape = cand[pd].deps.contains(cand[jc].hash);
            assert(exists|i2: int, j2: int|
                0 <= i2 < cand.len() && 0 <= j2 < cand.len() && cand[i2].hash == cand[jc].hash
                    && cand[j2].hash == d && (#[trigger] cand[i2].deps.contains(d)
                    || #[trigger] cand[j2].deps.contains(cand[jc].hash))) by {
                assert(0 <= jc < cand.len() && 0 <= pd < cand.len() && cand[jc].hash == cand[
                    jc
                ].hash && cand[pd].hash == d && cand[jc].deps.contains(d));
                assert(other_shape == cand[pd].deps.contains(cand[jc].hash));
            }
        }
        assert(sel.contains(d));
        lemma_filter_cand_covers(cand, sel, 0, pd);
    }
}

/// Dependency closure for the explicit-need extras: an extra lies
/// outside the candidate run, so the peer's sync points imply it and
/// every one of its dependencies; the receiver already holds them.
#[verifier::spinoff_prover]
#[verifier::rlimit(100)]
pub proof fn lemma_extras_dep_closed(
    s: Seq<ChangeView>,
    ust: Set<Seq<u8>>,
    need: Seq<Seq<u8>>,
    p: int,
    k: int,
)
    requires
        store_wf(s),
        0 <= p < need_extras(s, changes_since(s, ust, 0), need, 0).len(),
        0 <= k < need_extras(s, changes_since(s, ust, 0), need, 0)[p].deps.len(),
    ensures
        hash_implied(s, ust, need_extras(s, changes_since(s, ust, 0), need, 0)[p].deps[k]),
{
    let cand = changes_since(s, ust, 0);
    let ext = need_extras(s, cand, need, 0);
    let c = ext[p];
    let d = c.deps[k];
    crate::doc::lemma_changes_since_elems(s, ust, 0);
    lemma_need_extras_elems(s, cand, need, 0);
    let ic = choose|j: int|
        0 <= j < s.len() && s[j] == #[trigger] ext[p] && !cand_has(cand, s[j].hash);
    assert(implied(s, ust, ic)) by {
        if !implied(s, ust, ic) {
            let p2 = choose|p2: int| 0 <= p2 < cand.len() && cand[p2] == s[ic];
            assert(cand_has(cand, s[ic].hash)) by {
                assert(cand[p2].hash == s[ic].hash);
            }
        }
    }
    let kk = choose|kk: int| 0 <= kk < s[ic].deps.len() && s[ic].deps[kk] == d;
    assert(dep_before(s, ic, kk));
    let id = choose|j: int| 0 <= j < ic && s[j].hash == s[ic].deps[kk];
    lemma_implied_step(s, ust, id, ic);
    assert(hash_implied(s, ust, d));
}

/// What survives the dedup filter was never sent before, and nothing
/// unsent is lost.
pub proof fn lemma_drop_sent_elems(cs: Seq<ChangeView>, sent: Seq<Seq<u8>>)
    ensures
        forall|p: int|
            0 <= p < drop_sent(cs, sent).len() ==> !sent.contains(
                #[trigger] drop_sent(cs, sent)[p].hash,
            ),
        forall|p: int|
            0 <= p < drop_sent(cs, sent).len() ==> cs.contains(#[trigger] drop_sent(cs, sent)[p]),
        forall|q: int|
            0 <= q < cs.len() && !sent.contains(cs[q].hash) ==> drop_sent(cs, sent).contains(
                #[trigger] cs[q],
            ),
    decreases cs.len(),
{
    let r = drop_sent(cs, sent);
    if cs.len() > 0 {
        lemma_drop_sent_elems(cs.skip(1), sent);
        let rr = drop_sent(cs.skip(1), sent);
        assert forall|p: int|
            0 <= p < r.len() implies !sent.contains(#[trigger] r[p].hash) && cs.contains(
            r[p],
        ) by {
            if sent.contains(cs[0].hash) {
                assert(r[p] == rr[p]);
                assert(cs.skip(1).contains(rr[p]));
                let q = choose|q: int| 0 <= q < cs.skip(1).len() && cs.skip(1)[q] == rr[p];
                assert(cs[q + 1] == r[p]);
            } else {
                if p == 0 {
                    assert(r[p] == cs[0]);
                } else {
                    assert(r[p] == rr[p - 1]);
                    assert(cs.skip(1).contains(rr[p - 1]));
                    let q = choose|q: int|
                        0 <= q < cs.skip(1).len() && cs.skip(1)[q] == rr[p - 1];
                    assert(cs[q + 1] == r[p]);
                }
            }
        }
        assert forall|q: int|
            0 <= q < cs.len() && !sent.contains(cs[q].hash) implies r.contains(
            #[trigger] cs[q],
        ) by {
            if q == 0 {
                assert(r[0] == cs[0]);
            } else {
                assert(cs.skip(1)[q - 1] == cs[q]);
                assert(rr.contains(cs[q]));
                let p = choose|p: int| 0 <= p < rr.len() && rr[p] == cs[q];
                if sent.contains(cs[0].hash) {
                    assert(r[p] == cs[q]);
                } else {
                    assert(r[p + 1] == cs[q]);
                }
            }
        }
    }
}

/// Dedup: a hash recorded as sent never rides in a later message of
/// the same session, as long as no receive in between trimmed it out
/// (a receive trims a hash only once the peer's announced heads prove
/// the peer holds it).
pub proof fn lemma_no_hash_sent_twice(sent: Seq<Seq<u8>>, cs: Seq<ChangeView>, h: Seq<u8>)
    requires
        sent.contains(h),
    ensures
        !hashes_of(drop_sent(cs, sent)).contains(h),
{
    lemma_drop_sent_elems(cs, sent);
    if hashes_of(drop_sent(cs, sent)).contains(h) {
        let r = drop_sent(cs, sent);
        let p = choose|p: int| 0 <= p < hashes_of(r).len() && hashes_of(r)[p] == h;
        assert(r[p].hash == h);
        assert(!sent.contains(r[p].hash));
    }
}

/// Ancestors never shrink when the sync-point set grows.
pub proof fn lemma_implied_mono_since(
    s: Seq<ChangeView>,
    a: Set<Seq<u8>>,
    b: Set<Seq<u8>>,
    i: int,
)
    requires
        a.subset_of(b),
        implied(s, a, i),
    ensures
        implied(s, b, i),
    decreases s.len() - i,
{
    if !b.contains(s[i].hash) {
        let k = choose|k: int|
            i < k < s.len() && implied(s, a, k) && #[trigger] s[k].deps.contains(s[i].hash);
        lemma_implied_mono_since(s, a, b, k);
        lemma_implied_step(s, b, i, k);
    }
}

/// Ancestors never shrink when the store grows at the end.
pub proof fn lemma_implied_store_extend(
    s: Seq<ChangeView>,
    t: Seq<ChangeView>,
    st: Set<Seq<u8>>,
    i: int,
)
    requires
        s.len() <= t.len(),
        forall|j: int| 0 <= j < s.len() ==> t[j] == s[j],
        implied(s, st, i),
    ensures
        implied(t, st, i),
    decreases s.len() - i,
{
    if !st.contains(s[i].hash) {
        let k = choose|k: int|
            i < k < s.len() && implied(s, st, k) && #[trigger] s[k].deps.contains(s[i].hash);
        lemma_implied_store_extend(s, t, st, k);
        assert(t[k].deps.contains(t[i].hash));
        lemma_implied_step(t, st, i, k);
    } else {
        assert(st.contains(t[i].hash));
    }
}

/// Ancestors compose: what the old sync points implied is still
/// implied by new sync points that imply each old one.
pub proof fn lemma_implied_trans_sets(
    s: Seq<ChangeView>,
    a: Set<Seq<u8>>,
    b: Set<Seq<u8>>,
    i: int,
)
    requires
        store_wf(s),
        forall|h: Seq<u8>| a.contains(h) && store_has(s, h) ==> hash_implied(s, b, h),
        implied(s, a, i),
    ensures
        implied(s, b, i),
    decreases s.len() - i,
{
    if a.contains(s[i].hash) {
        assert(store_has(s, s[i].hash)) by {
            assert(0 <= i < s.len() && s[i].hash == s[i].hash);
        }
        assert(hash_implied(s, b, s[i].hash));
        let j = choose|j: int|
            0 <= j < s.len() && s[j].hash == s[i].hash && implied(s, b, j);
        assert(j == i);
    } else {
        let k = choose|k: int|
            i < k < s.len() && implied(s, a, k) && #[trigger] s[k].deps.contains(s[i].hash);
        lemma_implied_trans_sets(s, a, b, k);
        lemma_implied_step(s, b, i, k);
    }
}

/// Monotone shared heads, union branch: a receive that carries no
/// changes and announces at least one head we lack only adds to the
/// shared heads, so their ancestors only grow.
pub proof fn lemma_receive_grows_shared(
    s: Seq<ChangeView>,
    st0: StateView,
    m: crate::codec::MessageView,
    i: int,
)
    requires
        m.changes.len() == 0,
        !all_heads_known(s, m.heads),
        implied(s, as_set(st0.shared_heads), i),
    ensures
        implied(s, spec_shared_after(s, s, st0, m), i),
{
    lemma_implied_mono_since(s, as_set(st0.shared_heads), spec_shared_after(s, s, st0, m), i);
}

/// Monotone shared heads, adoption branch: when every announced head
/// is ours and the announced heads imply every previously shared head,
/// adopting them keeps every old ancestor implied. A peer that went
/// back on its own announcements — above all a wiped peer announcing
/// no heads at all — is the one case this excludes.
pub proof fn lemma_adopted_heads_grow_shared(
    s: Seq<ChangeView>,
    st0: StateView,
    m: crate::codec::MessageView,
    i: int,
)
    requires
        store_wf(s),
        m.changes.len() == 0,
        all_heads_known(s, m.heads),
        forall|h: Seq<u8>|
            as_set(st0.shared_heads).contains(h) && store_has(s, h) ==> hash_implied(
                s,
                as_set(m.heads),
                h,
            ),
        implied(s, as_set(st0.shared_heads), i),
    ensures
        implied(s, spec_shared_after(s, s, st0, m), i),
{
    lemma_implied_trans_sets(s, as_set(st0.shared_heads), as_set(m.heads), i);
    assert(spec_shared_after(s, s, st0, m) =~= as_set(m.heads));
}

} // verus!
