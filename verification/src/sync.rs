//! The sync state machine: the generator that decides what to say next,
//! the receiver that integrates what the peer said, and the change
//! selection that picks which changes to ship, closed over dependencies
//! so that everything sent can be applied.

use vstd::prelude::*;

use crate::bloom::{bloom_has, bloom_view_wf, spec_bloom_from, BloomFilter, BloomView};
use crate::change::{Change, ChangeView};
use crate::codec::{message_wf, Message, MessageView};
use crate::doc::{
    as_set, changes_since, hash_implied, idx_of, is_head, spec_apply, store_has, Automerge,
};
use crate::error::ApplyError;
use crate::hash::{
    contains_hash, copy_hashes, lex_sorted_strict, sorted_insert, ChangeHash,
};
use crate::state::{state_wf, Have, HaveView, State, StateView};

verus! {

/// The hashes of a run of changes, in the same order.
pub open spec fn hashes_of(cs: Seq<ChangeView>) -> Seq<Seq<u8>> {
    Seq::new(cs.len(), |i: int| cs[i].hash)
}

/// Whether a sorted vector is exactly the store's current heads.
pub open spec fn is_heads_rep(s: Seq<ChangeView>, q: Seq<Seq<u8>>) -> bool {
    &&& lex_sorted_strict(q)
    &&& forall|h: Seq<u8>|
        q.contains(h) <==> exists|i: int| 0 <= i < s.len() && s[i].hash == h && is_head(s, i)
}

/// The union of every summary's `last_sync` heads.
pub open spec fn union_last_sync(hs: Seq<HaveView>) -> Set<Seq<u8>> {
    Set::new(|h: Seq<u8>| exists|i: int| 0 <= i < hs.len() && #[trigger] hs[i].last_sync.contains(h))
}

/// Whether some candidate carries this hash.
pub open spec fn cand_has(cand: Seq<ChangeView>, h: Seq<u8>) -> bool {
    store_has(cand, h)
}

/// Whether every summary's bloom reports this hash absent.
pub open spec fn absent_from_all(hs: Seq<HaveView>, h: Seq<u8>) -> bool {
    forall|b: int| 0 <= b < hs.len() ==> !bloom_has(#[trigger] hs[b].bloom, h)
}

/// Two candidates are adjacent when one depends on the other.
pub open spec fn cand_adj(cand: Seq<ChangeView>, a: Seq<u8>, b: Seq<u8>) -> bool {
    exists|i: int, j: int|
        0 <= i < cand.len() && 0 <= j < cand.len() && cand[i].hash == a && cand[j].hash == b && (
        #[trigger] cand[i].deps.contains(b) || #[trigger] cand[j].deps.contains(a))
}

/// The hashes chosen outright: candidates that every bloom reports
/// absent, and candidates the peer asked for by name.
pub open spec fn send_seed(cand: Seq<ChangeView>, hs: Seq<HaveView>, need: Seq<Seq<u8>>) -> Set<
    Seq<u8>,
> {
    Set::new(|h: Seq<u8>| cand_has(cand, h) && (absent_from_all(hs, h) || need.contains(h)))
}

/// One widening step: add every candidate adjacent to the set.
pub open spec fn expand(cand: Seq<ChangeView>, s: Set<Seq<u8>>) -> Set<Seq<u8>> {
    s + Set::new(
        |b: Seq<u8>| cand_has(cand, b) && exists|a: Seq<u8>| #[trigger] s.contains(a) && cand_adj(
            cand,
            a,
            b,
        ),
    )
}

pub open spec fn expand_n(cand: Seq<ChangeView>, s: Set<Seq<u8>>, n: nat) -> Set<Seq<u8>>
    decreases n,
{
    if n == 0 {
        s
    } else {
        expand(cand, expand_n(cand, s, (n - 1) as nat))
    }
}

/// The hashes to send: the least set holding the seed and closed under
/// adjacency among candidates. A change goes out when a change that
/// builds on it goes out (the peer cannot hold the one without the
/// other), and when one of its dependencies goes out (the receiver
/// could not apply it otherwise).
pub open spec fn send_set(cand: Seq<ChangeView>, seed: Set<Seq<u8>>) -> Set<Seq<u8>> {
    Set::new(|h: Seq<u8>| exists|n: nat| expand_n(cand, seed, n).contains(h))
}

/// The candidates whose hash is selected, in store order.
pub open spec fn filter_cand(cand: Seq<ChangeView>, sel: Set<Seq<u8>>, i: int) -> Seq<ChangeView>
    decreases cand.len() - i,
{
    if 0 <= i < cand.len() {
        if sel.contains(cand[i].hash) {
            seq![cand[i]] + filter_cand(cand, sel, i + 1)
        } else {
            filter_cand(cand, sel, i + 1)
        }
    } else {
        Seq::empty()
    }
}

/// The stored changes fetched for explicitly requested hashes, in
/// request order; hashes we do not hold are skipped.
pub open spec fn need_fetch(s: Seq<ChangeView>, need: Seq<Seq<u8>>, i: int) -> Seq<ChangeView>
    decreases need.len() - i,
{
    if 0 <= i < need.len() {
        if store_has(s, need[i]) {
            seq![s[idx_of(s, need[i])]] + need_fetch(s, need, i + 1)
        } else {
            need_fetch(s, need, i + 1)
        }
    } else {
        Seq::empty()
    }
}

/// As `need_fetch`, but only for hashes outside the candidate run: the
/// explicit-need extras appended after the selected candidates.
pub open spec fn need_extras(
    s: Seq<ChangeView>,
    cand: Seq<ChangeView>,
    need: Seq<Seq<u8>>,
    i: int,
) -> Seq<ChangeView>
    decreases need.len() - i,
{
    if 0 <= i < need.len() {
        if !cand_has(cand, need[i]) && store_has(s, need[i]) {
            seq![s[idx_of(s, need[i])]] + need_extras(s, cand, need, i + 1)
        } else {
            need_extras(s, cand, need, i + 1)
        }
    } else {
        Seq::empty()
    }
}

/// What `get_changes_to_send` returns. With no summaries to go by, just
/// the explicitly requested changes; otherwise the selected candidates
/// in store order, then the explicit-need extras.
pub open spec fn spec_changes_to_send(
    s: Seq<ChangeView>,
    hs: Seq<HaveView>,
    need: Seq<Seq<u8>>,
) -> Seq<ChangeView> {
    if hs.len() == 0 {
        need_fetch(s, need, 0)
    } else {
        let cand = changes_since(s, union_last_sync(hs), 0);
        filter_cand(cand, send_set(cand, send_seed(cand, hs, need)), 0) + need_extras(
            s,
            cand,
            need,
            0,
        )
    }
}

/// The send set is closed under one widening step.
pub proof fn lemma_send_set_closed(cand: Seq<ChangeView>, seed: Set<Seq<u8>>, a: Seq<u8>, b: Seq<u8>)
    requires
        send_set(cand, seed).contains(a),
        cand_has(cand, b),
        cand_adj(cand, a, b),
    ensures
        send_set(cand, seed).contains(b),
{
    let n = choose|n: nat| expand_n(cand, seed, n).contains(a);
    assert(expand_n(cand, seed, n + 1) == expand(cand, expand_n(cand, seed, n)));
    assert(expand(cand, expand_n(cand, seed, n)).contains(b));
}

/// The seed is in the send set.
pub proof fn lemma_send_set_seed(cand: Seq<ChangeView>, seed: Set<Seq<u8>>, h: Seq<u8>)
    requires
        seed.contains(h),
    ensures
        send_set(cand, seed).contains(h),
{
    assert(expand_n(cand, seed, 0).contains(h));
}

/// Any set holding the seed and closed under adjacency holds the whole
/// send set: it is the least such set.
pub proof fn lemma_send_set_least(
    cand: Seq<ChangeView>,
    seed: Set<Seq<u8>>,
    f: Set<Seq<u8>>,
    n: nat,
)
    requires
        seed.subset_of(f),
        forall|a: Seq<u8>, b: Seq<u8>|
            f.contains(a) && cand_has(cand, b) && #[trigger] cand_adj(cand, a, b) ==> f.contains(
                b,
            ),
    ensures
        expand_n(cand, seed, n).subset_of(f),
    decreases n,
{
    if n > 0 {
        lemma_send_set_least(cand, seed, f, (n - 1) as nat);
        let prev = expand_n(cand, seed, (n - 1) as nat);
        assert forall|h: Seq<u8>| expand_n(cand, seed, n).contains(h) implies f.contains(h) by {
            if !prev.contains(h) {
                let a = choose|a: Seq<u8>| #[trigger] prev.contains(a) && cand_adj(cand, a, h);
                assert(f.contains(a));
            }
        }
    }
}


/// How many flags are raised.
pub open spec fn count_true(s: Seq<bool>) -> nat
    decreases s.len(),
{
    if s.len() == 0 {
        0
    } else {
        count_true(s.drop_last()) + if s.last() {
            1nat
        } else {
            0nat
        }
    }
}

proof fn lemma_count_true_bound(s: Seq<bool>)
    ensures
        count_true(s) <= s.len(),
    decreases s.len(),
{
    if s.len() > 0 {
        lemma_count_true_bound(s.drop_last());
    }
}

proof fn lemma_count_true_update(s: Seq<bool>, i: int)
    requires
        0 <= i < s.len(),
        !s[i],
    ensures
        count_true(s.update(i, true)) == count_true(s) + 1,
    decreases s.len(),
{
    let t = s.update(i, true);
    if i == s.len() - 1 {
        assert(t.drop_last() =~= s.drop_last());
        assert(t.last());
    } else {
        assert(t.drop_last() =~= s.drop_last().update(i, true));
        assert(t.last() == s.last());
        lemma_count_true_update(s.drop_last(), i);
    }
}

/// Whether index `q` is somewhere on the stack.
pub open spec fn in_stack(st: Seq<usize>, q: int) -> bool {
    exists|t: int| 0 <= t < st.len() && st[t] == q
}

/// Marks each candidate whose hash belongs to the send set, by seeding
/// the bloom-absent and explicitly needed candidates and then chasing
/// the dependency relation both ways to a fixed point.
#[verifier::loop_isolation(false)]
#[verifier::rlimit(100)]
fn select_flags(cand: &Vec<Change>, have: &Vec<Have>, need: &[ChangeHash]) -> (flags: Vec<bool>)
    requires
        forall|p: int, q: int|
            0 <= p < q < cand.deep_view().len() ==> cand.deep_view()[p].hash
                != cand.deep_view()[q].hash,
        forall|i: int|
            0 <= i < have@.len() ==> bloom_view_wf(#[trigger] have.deep_view()[i].bloom),
    ensures
        flags@.len() == cand.deep_view().len(),
        forall|q: int|
            0 <= q < flags@.len() ==> flags@[q] == send_set(
                cand.deep_view(),
                send_seed(cand.deep_view(), have.deep_view(), need.deep_view()),
            ).contains(cand.deep_view()[q].hash),
{
    let ghost cd = cand.deep_view();
    let ghost hv = have.deep_view();
    let ghost nv = need.deep_view();
    let ghost seed = send_seed(cd, hv, nv);
    let ghost sset = send_set(cd, seed);
    proof {
        assert(cd.len() == cand@.len());
        assert(hv.len() == have@.len());
    }
    let n = cand.len();
    let mut flags: Vec<bool> = Vec::new();
    let mut z: usize = 0;
    while z < n
        invariant
            0 <= z <= n,
            flags@.len() == z,
            forall|q: int| 0 <= q < z ==> !flags@[q],
        decreases n - z,
    {
        flags.push(false);
        z = z + 1;
    }
    let mut stack: Vec<usize> = Vec::new();
    let mut i: usize = 0;
    proof {
        assert(count_true(flags@) == 0) by {
            lemma_count_all_false(flags@);
        }
    }
    while i < n
        invariant
            0 <= i <= n,
            n == cd.len(),
            flags@.len() == n,
            forall|q: int| 0 <= q < i ==> flags@[q] == seed.contains(cd[q].hash),
            forall|q: int| i <= q < n ==> !flags@[q],
            forall|t: int|
                0 <= t < stack@.len() ==> (stack@[t] < n && flags@[stack@[t] as int]),
            forall|q: int| 0 <= q < n && flags@[q] ==> in_stack(stack@, q),
            stack@.len() <= count_true(flags@),
            count_true(flags@) <= n,
        decreases n - i,
    {
        let ghost h_v = cd[i as int];
        proof {
            assert(cand@[i as int]@ == cd[i as int]);
        }
        let mut all_absent = true;
        let mut b: usize = 0;
        while b < have.len()
            invariant
                0 <= b <= have@.len(),
                all_absent <==> forall|p: int|
                    0 <= p < b ==> !bloom_has(#[trigger] hv[p].bloom, cd[i as int].hash),
            decreases have@.len() - b,
        {
            proof {
                assert(have@[b as int]@ == hv[b as int]);
                assert(bloom_view_wf(hv[b as int].bloom));
                assert(have@[b as int].bloom@ == hv[b as int].bloom);
                assert(cand@[i as int]@ == cd[i as int]);
            }
            let hit_b = have[b].bloom.contains_hash(&cand[i].hash);
            proof {
                assert(hit_b == bloom_has(hv[b as int].bloom, cd[i as int].hash));
            }
            if hit_b {
                all_absent = false;
            }
            b = b + 1;
        }
        let in_need = contains_hash(need, &cand[i].hash);
        proof {
            assert(all_absent == absent_from_all(hv, cd[i as int].hash));
            assert(in_need == nv.contains(cd[i as int].hash));
        }
        if all_absent || in_need {
            proof {
                assert(cand_has(cd, cd[i as int].hash)) by {
                    assert(cd[i as int].hash == cd[i as int].hash);
                }
                assert(seed.contains(cd[i as int].hash));
                lemma_count_true_update(flags@, i as int);
            }
            let ghost st_pre = stack@;
            let ghost fl_pre = flags@;
            flags.set(i, true);
            stack.push(i);
            proof {
                lemma_count_true_bound(flags@);
                assert(stack@ =~= st_pre.push(i));
                assert forall|q: int| 0 <= q < n && flags@[q] implies in_stack(stack@, q) by {
                    if q != i {
                        assert(fl_pre[q]);
                        let t = choose|t: int| 0 <= t < st_pre.len() && st_pre[t] == q;
                        assert(stack@[t] == q);
                    } else {
                        assert(stack@[stack@.len() - 1] == q);
                    }
                }
            }
        } else {
            proof {
                assert(!seed.contains(cd[i as int].hash));
            }
        }
        i = i + 1;
    }
    proof {
        assert forall|q: int| 0 <= q < n && flags@[q] implies sset.contains(cd[q].hash) by {
            lemma_send_set_seed(cd, seed, cd[q].hash);
        }
        assert forall|q: int| 0 <= q < n && seed.contains(cd[q].hash) implies flags@[q] by {
        }
    }
    // Chase adjacency to a fixed point.
    while stack.len() > 0
        invariant
            n == cd.len(),
            flags@.len() == n,
            forall|q: int| 0 <= q < n && flags@[q] ==> sset.contains(cd[q].hash),
            forall|q: int| 0 <= q < n && seed.contains(cd[q].hash) ==> flags@[q],
            forall|t: int|
                0 <= t < stack@.len() ==> (stack@[t] < n && flags@[stack@[t] as int]),
            forall|q: int, j: int|
                0 <= q < n && 0 <= j < n && flags@[q] && !in_stack(stack@, q) && cand_adj(
                    cd,
                    cd[q].hash,
                    cd[j].hash,
                ) ==> flags@[j],
            stack@.len() <= count_true(flags@),
            count_true(flags@) <= n,
        decreases (n - count_true(flags@)) * (n + 1) + stack@.len(),
    {
        let ghost stack_pre = stack@;
        let ghost flags_pre = flags@;
        let cur = match stack.pop() {
            Some(v) => v,
            None => {
                proof {
                    assert(false);
                }
                0
            },
        };
        proof {
            assert(stack@ =~= stack_pre.drop_last());
            assert(cur == stack_pre[stack_pre.len() - 1]);
            assert(cur < n && flags@[cur as int]);
        }
        let mut j: usize = 0;
        while j < n
            invariant
                0 <= j <= n,
                n == cd.len(),
                flags@.len() == n,
                cur < n,
                flags@[cur as int],
                forall|q: int| 0 <= q < n && flags_pre[q] ==> flags@[q],
                forall|q: int| 0 <= q < n && flags@[q] ==> sset.contains(cd[q].hash),
                forall|q: int| 0 <= q < n && seed.contains(cd[q].hash) ==> flags@[q],
                forall|t: int|
                    0 <= t < stack@.len() ==> (stack@[t] < n && flags@[stack@[t] as int]),
                forall|q: int, jj: int|
                    0 <= q < n && 0 <= jj < n && flags_pre[q] && !in_stack(stack_pre, q)
                        && cand_adj(cd, cd[q].hash, cd[jj].hash) ==> flags@[jj],
                forall|jj: int|
                    0 <= jj < j && cand_adj(cd, cd[cur as int].hash, cd[jj].hash) ==> flags@[jj],
                forall|q: int|
                    0 <= q < n && flags@[q] && !flags_pre[q] ==> in_stack(stack@, q),
                forall|q: int|
                    0 <= q < n && in_stack(stack_pre.drop_last(), q) ==> in_stack(stack@, q),
                stack@.len() <= count_true(flags@),
                count_true(flags@) <= n,
                count_true(flags_pre) <= count_true(flags@),
                stack@.len() - stack_pre.len() + 1 <= count_true(flags@) - count_true(flags_pre),
            decreases n - j,
        {
            let rel_a = contains_hash(cand[cur].deps.as_slice(), &cand[j].hash);
            let rel_b = contains_hash(cand[j].deps.as_slice(), &cand[cur].hash);
            proof {
                assert(cand@[cur as int]@ == cd[cur as int]);
                assert(cand@[j as int]@ == cd[j as int]);
                assert(cand@[cur as int].deps.deep_view() =~= cd[cur as int].deps);
                assert(cand@[j as int].deps.deep_view() =~= cd[j as int].deps);
                assert(rel_a == cd[cur as int].deps.contains(cd[j as int].hash));
                assert(rel_b == cd[j as int].deps.contains(cd[cur as int].hash));
            }
            let rel = rel_a || rel_b;
            if rel {
                proof {
                    assert(cand_adj(cd, cd[cur as int].hash, cd[j as int].hash)) by {
                        assert(0 <= cur < cd.len() && 0 <= j < cd.len());
                        if cd[cur as int].deps.contains(cd[j as int].hash) {
                        } else {
                            assert(cd[j as int].deps.contains(cd[cur as int].hash));
                        }
                    }
                }
                if !flags[j] {
                    proof {
                        lemma_send_set_closed(cd, seed, cd[cur as int].hash, cd[j as int].hash);
                        lemma_count_true_update(flags@, j as int);
                    }
                    let ghost st_mid = stack@;
                    let ghost fl_mid = flags@;
                    flags.set(j, true);
                    stack.push(j);
                    proof {
                        lemma_count_true_bound(flags@);
                        assert(stack@ =~= st_mid.push(j));
                        assert forall|q: int|
                            0 <= q < n && flags@[q] && !flags_pre[q] implies in_stack(
                            stack@,
                            q,
                        ) by {
                            if q != j {
                                assert(fl_mid[q]);
                                let t = choose|t: int| 0 <= t < st_mid.len() && st_mid[t] == q;
                                assert(stack@[t] == q);
                            } else {
                                assert(stack@[stack@.len() - 1] == q);
                            }
                        }
                        assert forall|q: int|
                            0 <= q < n && in_stack(stack_pre.drop_last(), q) implies in_stack(
                            stack@,
                            q,
                        ) by {
                            let t = choose|t: int| 0 <= t < st_mid.len() && st_mid[t] == q;
                            assert(stack@[t] == q);
                        }
                    }
                }
            } else {
                proof {
                    if cand_adj(cd, cd[cur as int].hash, cd[j as int].hash) {
                        let (a, b2) = choose|a: int, b2: int|
                            0 <= a < cd.len() && 0 <= b2 < cd.len() && cd[a].hash == cd[
                                cur as int
                            ].hash && cd[b2].hash == cd[j as int].hash && (cd[a].deps.contains(
                                cd[j as int].hash,
                            ) || cd[b2].deps.contains(cd[cur as int].hash));
                        assert(a == cur as int && b2 == j as int);
                        assert(false);
                    }
                }
            }
            j = j + 1;
        }
        proof {
            assert forall|q: int, jj: int|
                0 <= q < n && 0 <= jj < n && flags@[q] && !in_stack(stack@, q) && cand_adj(
                    cd,
                    cd[q].hash,
                    cd[jj].hash,
                ) implies flags@[jj] by {
                if !flags_pre[q] {
                    assert(in_stack(stack@, q));
                    assert(false);
                } else if in_stack(stack_pre, q) {
                    let t = choose|t: int| 0 <= t < stack_pre.len() && stack_pre[t] == q;
                    if t < stack_pre.len() - 1 {
                        assert(stack_pre.drop_last()[t] == q);
                        assert(in_stack(stack_pre.drop_last(), q));
                        assert(in_stack(stack@, q));
                        assert(false);
                    } else {
                        assert(q == cur as int);
                    }
                } else {
                }
            }
            let ct0 = count_true(flags_pre) as int;
            let ct1 = count_true(flags@) as int;
            let st0 = stack_pre.len() as int;
            let st1 = stack@.len() as int;
            assert((n - ct1) * (n + 1) + st1 < (n - ct0) * (n + 1) + st0) by (nonlinear_arith)
                requires
                    ct0 <= ct1 <= n as int,
                    st1 <= st0 - 1 + ct1 - ct0,
                    0 <= st1,
                    0 <= n as int,
            ;
        }
    }
    // The flags now agree with the send set everywhere.
    proof {
        let fset = Set::new(
            |h: Seq<u8>| exists|q: int| 0 <= q < n && #[trigger] cd[q].hash == h && flags@[q],
        );
        assert(seed.subset_of(fset)) by {
            assert forall|h: Seq<u8>| seed.contains(h) implies fset.contains(h) by {
                let q = choose|q: int| 0 <= q < cd.len() && cd[q].hash == h;
                assert(flags@[q]);
            }
        }
        assert forall|a: Seq<u8>, b: Seq<u8>|
            fset.contains(a) && cand_has(cd, b) && #[trigger] cand_adj(cd, a, b) implies fset
            .contains(b) by {
            let qa = choose|q: int| 0 <= q < n && #[trigger] cd[q].hash == a && flags@[q];
            let qb = choose|q: int| 0 <= q < cd.len() && cd[q].hash == b;
            assert(!in_stack(stack@, qa));
            assert(flags@[qb]);
        }
        assert forall|q: int| 0 <= q < n implies flags@[q] == sset.contains(cd[q].hash) by {
            if flags@[q] {
                assert(sset.contains(cd[q].hash));
            }
            if sset.contains(cd[q].hash) {
                let m = choose|m: nat| expand_n(cd, seed, m).contains(cd[q].hash);
                lemma_send_set_least(cd, seed, fset, m);
                assert(fset.contains(cd[q].hash));
                let q2 = choose|q2: int|
                    0 <= q2 < n && #[trigger] cd[q2].hash == cd[q].hash && flags@[q2];
                assert(q2 == q);
            }
        }
    }
    flags
}

proof fn lemma_count_all_false(s: Seq<bool>)
    requires
        forall|q: int| 0 <= q < s.len() ==> !s[q],
    ensures
        count_true(s) == 0,
    decreases s.len(),
{
    if s.len() > 0 {
        lemma_count_all_false(s.drop_last());
    }
}

/// Collects the union of every summary's `last_sync` heads, sorted.
#[verifier::loop_isolation(false)]
fn union_ls(have: &Vec<Have>) -> (r: Vec<ChangeHash>)
    ensures
        lex_sorted_strict(r.deep_view()),
        forall|h: Seq<u8>|
            #![trigger r.deep_view().contains(h)]
            r.deep_view().contains(h) <==> union_last_sync(have.deep_view()).contains(h),
{
    let ghost hv = have.deep_view();
    let mut r: Vec<ChangeHash> = Vec::new();
    proof {
        assert(r.deep_view() =~= Seq::<Seq<u8>>::empty());
        assert(hv.len() == have@.len());
    }
    let mut b: usize = 0;
    while b < have.len()
        invariant
            0 <= b <= have@.len(),
            lex_sorted_strict(r.deep_view()),
            forall|h: Seq<u8>|
                #![trigger r.deep_view().contains(h)]
                r.deep_view().contains(h) <==> exists|p: int|
                    0 <= p < b && #[trigger] hv[p].last_sync.contains(h),
        decreases have@.len() - b,
    {
        let ghost lsv = hv[b as int].last_sync;
        proof {
            assert(have@[b as int]@ == hv[b as int]);
            assert(have@[b as int].last_sync.deep_view() == lsv);
            assert(lsv.len() == have@[b as int].last_sync@.len());
        }
        let ls = &have[b].last_sync;
        let mut j: usize = 0;
        while j < ls.len()
            invariant
                0 <= j <= ls@.len(),
                ls == &have@[b as int].last_sync,
                ls.deep_view() == lsv,
                lsv.len() == ls@.len(),
                lex_sorted_strict(r.deep_view()),
                forall|h: Seq<u8>|
                    #![trigger r.deep_view().contains(h)]
                    r.deep_view().contains(h) <==> (exists|p: int|
                        0 <= p < b && #[trigger] hv[p].last_sync.contains(h)) || (exists|q: int|
                        0 <= q < j && lsv[q] == h),
            decreases ls@.len() - j,
        {
            let ghost pre = r.deep_view();
            let ghost h_v = lsv[j as int];
            proof {
                assert(ls@[j as int]@ == lsv[j as int]);
            }
            sorted_insert(&mut r, ls[j]);
            proof {
                assert forall|h: Seq<u8>|
                    #![trigger r.deep_view().contains(h)]
                    r.deep_view().contains(h) <==> ((exists|p: int|
                        0 <= p < b && #[trigger] hv[p].last_sync.contains(h)) || (exists|q: int|
                        0 <= q < j + 1 && lsv[q] == h)) by {
                    if r.deep_view().contains(h) {
                        if h != h_v {
                            assert(pre.contains(h));
                        } else {
                            assert(lsv[j as int] == h);
                        }
                    }
                    if (exists|p: int| 0 <= p < b && #[trigger] hv[p].last_sync.contains(h)) || (
                    exists|q: int| 0 <= q < j + 1 && lsv[q] == h) {
                        if exists|q: int| 0 <= q < j + 1 && lsv[q] == h {
                            let q = choose|q: int| 0 <= q < j + 1 && lsv[q] == h;
                            if q < j {
                                assert(pre.contains(h));
                            }
                        } else {
                            assert(pre.contains(h));
                        }
                        assert(r.deep_view().contains(h));
                    }
                }
            }
            j = j + 1;
        }
        proof {
            assert forall|h: Seq<u8>|
                #![trigger r.deep_view().contains(h)]
                r.deep_view().contains(h) <==> exists|p: int|
                    0 <= p < b + 1 && #[trigger] hv[p].last_sync.contains(h) by {
                if r.deep_view().contains(h) {
                    if exists|q: int| 0 <= q < lsv.len() && lsv[q] == h {
                        assert(hv[b as int].last_sync.contains(h));
                    }
                }
                if exists|p: int| 0 <= p < b + 1 && #[trigger] hv[p].last_sync.contains(h) {
                    let p = choose|p: int| 0 <= p < b + 1 && #[trigger] hv[p].last_sync.contains(
                        h,
                    );
                    if p == b {
                        let q = choose|q: int| 0 <= q < lsv.len() && lsv[q] == h;
                        assert(0 <= q < lsv.len() && lsv[q] == h);
                    }
                    assert(r.deep_view().contains(h));
                }
            }
        }
        b = b + 1;
    }
    r
}

impl Automerge {
    /// The changes to send, given the peer's summaries and explicit
    /// requests: with no summaries, just the requested changes; else
    /// every candidate absent from the summaries or requested by name,
    /// closed both ways over the dependency relation, in store order,
    /// then the requested changes outside the candidate run.
    #[verifier::loop_isolation(false)]
    #[verifier::rlimit(100)]
    pub fn get_changes_to_send(&self, have: &Vec<Have>, need: &[ChangeHash]) -> (r: Vec<Change>)
        requires
            self.wf(),
            forall|i: int|
                0 <= i < have@.len() ==> bloom_view_wf(#[trigger] have.deep_view()[i].bloom),
        ensures
            r.deep_view() == spec_changes_to_send(self@, have.deep_view(), need.deep_view()),
    {
        let ghost s = self@;
        let ghost hv = have.deep_view();
        let ghost nv = need.deep_view();
        proof {
            assert(hv.len() == have@.len());
            assert(nv.len() == need@.len());
        }
        if have.len() == 0 {
            let mut out: Vec<Change> = Vec::new();
            proof {
                assert(out.deep_view() =~= Seq::<ChangeView>::empty());
                assert(out.deep_view() + need_fetch(s, nv, 0) =~= need_fetch(s, nv, 0));
            }
            let mut i: usize = 0;
            while i < need.len()
                invariant
                    0 <= i <= need@.len(),
                    need_fetch(s, nv, 0) == out.deep_view() + need_fetch(s, nv, i as int),
                decreases need@.len() - i,
            {
                proof {
                    assert(need@[i as int]@ == nv[i as int]);
                }
                match self.get_change_by_hash(&need[i]) {
                    Some(c) => {
                        let ghost pre = out.deep_view();
                        let cc = c.clone();
                        out.push(cc);
                        proof {
                            let k = choose|k: int| 0 <= k < s.len() && s[k] == c@;
                            let k2 = idx_of(s, nv[i as int]);
                            assert(0 <= k2 < s.len() && s[k2].hash == nv[i as int]);
                            assert(k == k2);
                            assert(out.deep_view() =~= pre.push(s[idx_of(s, nv[i as int])]));
                            assert(pre + (seq![s[idx_of(s, nv[i as int])]] + need_fetch(
                                s,
                                nv,
                                i + 1,
                            )) =~= out.deep_view() + need_fetch(s, nv, i + 1));
                        }
                    },
                    None => {
                    },
                }
                i = i + 1;
            }
            proof {
                assert(need_fetch(s, nv, nv.len() as int) == Seq::<ChangeView>::empty());
                assert(out.deep_view() + Seq::<ChangeView>::empty() =~= out.deep_view());
            }
            return out;
        }
        let ls = union_ls(have);
        let ghost ust = union_last_sync(hv);
        proof {
            assert(as_set(ls.deep_view()) =~= ust);
        }
        let ls_slice = ls.as_slice();
        proof {
            assert(ls_slice.deep_view() =~= ls.deep_view());
        }
        let cand = self.get_changes(ls_slice);
        let ghost cd = cand.deep_view();
        proof {
            assert(cd == changes_since(s, ust, 0));
            crate::doc::lemma_changes_since_elems(s, ust, 0);
            assert(cd.len() == cand@.len());
        }
        let ghost seed = send_seed(cd, hv, nv);
        let ghost sset = send_set(cd, seed);
        let flags = select_flags(&cand, have, need);
        let mut out: Vec<Change> = Vec::new();
        proof {
            assert(out.deep_view() =~= Seq::<ChangeView>::empty());
            assert(out.deep_view() + filter_cand(cd, sset, 0) =~= filter_cand(cd, sset, 0));
        }
        let mut i: usize = 0;
        while i < cand.len()
            invariant
                0 <= i <= cand@.len(),
                filter_cand(cd, sset, 0) == out.deep_view() + filter_cand(cd, sset, i as int),
            decreases cand@.len() - i,
        {
            proof {
                assert(cand@[i as int]@ == cd[i as int]);
            }
            if flags[i] {
                let ghost pre = out.deep_view();
                out.push(cand[i].clone());
                proof {
                    assert(out.deep_view() =~= pre.push(cd[i as int]));
                    assert(pre + (seq![cd[i as int]] + filter_cand(cd, sset, i + 1)) =~= out
                        .deep_view() + filter_cand(cd, sset, i + 1));
                }
            }
            i = i + 1;
        }
        proof {
            assert(filter_cand(cd, sset, cd.len() as int) == Seq::<ChangeView>::empty());
            assert(out.deep_view() + Seq::<ChangeView>::empty() =~= out.deep_view());
        }
        let ghost selected = out.deep_view();
        // Explicit-need extras not among the candidates.
        let mut k: usize = 0;
        while k < need.len()
            invariant
                0 <= k <= need@.len(),
                selected + need_extras(s, cd, nv, 0) == out.deep_view() + need_extras(
                    s,
                    cd,
                    nv,
                    k as int,
                ),
            decreases need@.len() - k,
        {
            proof {
                assert(need@[k as int]@ == nv[k as int]);
            }
            let in_cand = crate::doc::vec_has_change(&cand, &need[k]);
            if !in_cand {
                match self.get_change_by_hash(&need[k]) {
                    Some(c) => {
                        let ghost pre = out.deep_view();
                        out.push(c.clone());
                        proof {
                            let kk = choose|kk: int| 0 <= kk < s.len() && s[kk] == c@;
                            let k2 = idx_of(s, nv[k as int]);
                            assert(0 <= k2 < s.len() && s[k2].hash == nv[k as int]);
                            assert(kk == k2);
                            assert(out.deep_view() =~= pre.push(s[idx_of(s, nv[k as int])]));
                            assert(pre + (seq![s[idx_of(s, nv[k as int])]] + need_extras(
                                s,
                                cd,
                                nv,
                                k + 1,
                            )) =~= out.deep_view() + need_extras(s, cd, nv, k + 1));
                        }
                    },
                    None => {
                    },
                }
            }
            k = k + 1;
        }
        proof {
            assert(need_extras(s, cd, nv, nv.len() as int) == Seq::<ChangeView>::empty());
            assert(out.deep_view() + Seq::<ChangeView>::empty() =~= out.deep_view());
        }
        out
    }
}

/// The inferred shared heads after an apply: heads that are new to us
/// (they arrived with the peer's changes) plus previously shared heads
/// still current.
#[verifier::loop_isolation(false)]
fn advance_heads(
    old_heads: &Vec<ChangeHash>,
    new_heads: &Vec<ChangeHash>,
    old_shared: &Vec<ChangeHash>,
) -> (r: Vec<ChangeHash>)
    ensures
        lex_sorted_strict(r.deep_view()),
        forall|h: Seq<u8>|
            #![trigger r.deep_view().contains(h)]
            r.deep_view().contains(h) <==> (new_heads.deep_view().contains(h)
                && !old_heads.deep_view().contains(h)) || (old_shared.deep_view().contains(h)
                && new_heads.deep_view().contains(h)),
{
    let ghost nh = new_heads.deep_view();
    let ghost oh = old_heads.deep_view();
    let ghost os = old_shared.deep_view();
    let mut r: Vec<ChangeHash> = Vec::new();
    proof {
        assert(r.deep_view() =~= Seq::<Seq<u8>>::empty());
        assert(nh.len() == new_heads@.len());
        assert(os.len() == old_shared@.len());
    }
    let mut i: usize = 0;
    while i < new_heads.len()
        invariant
            0 <= i <= new_heads@.len(),
            lex_sorted_strict(r.deep_view()),
            forall|h: Seq<u8>| #![trigger r.deep_view().contains(h)]
                r.deep_view().contains(h) <==> (exists|q: int| 0 <= q < i && nh[q] == h)
                    && !oh.contains(h),
        decreases new_heads@.len() - i,
    {
        let ghost pre = r.deep_view();
        let ghost h_v = nh[i as int];
        proof {
            assert(new_heads@[i as int]@ == nh[i as int]);
            assert(forall|h: Seq<u8>|
                pre.contains(h) <==> (exists|q: int| 0 <= q < i && nh[q] == h) && !oh.contains(
                    h,
                ));
        }
        let oh_slice = old_heads.as_slice();
        proof {
            assert(oh_slice.deep_view() =~= oh);
        }
        let absent = !contains_hash(oh_slice, &new_heads[i]);
        if absent {
            sorted_insert(&mut r, new_heads[i]);
        }
        proof {
            assert forall|h: Seq<u8>|
                r.deep_view().contains(h) <==> ((exists|q: int| 0 <= q < i + 1 && nh[q] == h)
                && !oh.contains(h)) by {
                if r.deep_view().contains(h) {
                    if absent && h == h_v {
                        assert(nh[i as int] == h);
                    } else {
                        assert(pre.contains(h));
                        let q = choose|q: int| 0 <= q < i && nh[q] == h;
                        assert(0 <= q < i + 1 && nh[q] == h);
                    }
                }
                if (exists|q: int| 0 <= q < i + 1 && nh[q] == h) && !oh.contains(h) {
                    let q = choose|q: int| 0 <= q < i + 1 && nh[q] == h;
                    if q < i {
                        assert(pre.contains(h));
                    } else {
                        assert(h == h_v && absent);
                    }
                    assert(r.deep_view().contains(h));
                }
            }
        }
        i = i + 1;
    }
    proof {
        assert(i == nh.len());
        assert forall|h: Seq<u8>|
            r.deep_view().contains(h) <==> nh.contains(h) && !oh.contains(h) by {
            if r.deep_view().contains(h) {
                assert((exists|q: int| 0 <= q < i && nh[q] == h) && !oh.contains(h));
                let q = choose|q: int| 0 <= q < i && nh[q] == h;
                assert(0 <= q < nh.len() && nh[q] == h);
            }
            if nh.contains(h) && !oh.contains(h) {
                let q = choose|q: int| 0 <= q < nh.len() && nh[q] == h;
                assert(0 <= q < i && nh[q] == h);
            }
        }
    }
    let mut j: usize = 0;
    while j < old_shared.len()
        invariant
            0 <= j <= old_shared@.len(),
            lex_sorted_strict(r.deep_view()),
            forall|h: Seq<u8>|
                r.deep_view().contains(h) <==> (nh.contains(h) && !oh.contains(h)) || ((exists|
                    q: int,
                |
                    0 <= q < j && os[q] == h) && nh.contains(h)),
        decreases old_shared@.len() - j,
    {
        let ghost pre = r.deep_view();
        let ghost h_v = os[j as int];
        proof {
            assert(old_shared@[j as int]@ == os[j as int]);
        }
        let nh_slice = new_heads.as_slice();
        proof {
            assert(nh_slice.deep_view() =~= nh);
        }
        let current = contains_hash(nh_slice, &old_shared[j]);
        if current {
            sorted_insert(&mut r, old_shared[j]);
        }
        proof {
            assert forall|h: Seq<u8>|
                r.deep_view().contains(h) implies ((nh.contains(h) && !oh.contains(h)) || ((exists|
                q: int,
            |
                0 <= q < j + 1 && os[q] == h) && nh.contains(h))) by {
                if current && h == h_v {
                    assert(os[j as int] == h);
                } else {
                    assert(pre.contains(h));
                }
            }
            assert forall|h: Seq<u8>|
                ((nh.contains(h) && !oh.contains(h)) || ((exists|q: int|
                    0 <= q < j + 1 && os[q] == h) && nh.contains(h))) implies r
                .deep_view().contains(h) by {
                if (nh.contains(h) && !oh.contains(h)) {
                    assert(pre.contains(h));
                } else {
                    let q = choose|q: int| 0 <= q < j + 1 && os[q] == h;
                    if q < j {
                        assert(pre.contains(h));
                    } else {
                        assert(h == h_v && current);
                    }
                }
            }
        }
        j = j + 1;
    }
    proof {
        assert forall|h: Seq<u8>| os.contains(h) implies exists|q: int|
            0 <= q < old_shared@.len() && os[q] == h by {
        }
    }
    r
}

impl Automerge {
    /// Builds the `Have` summary for the given sync point: those heads,
    /// and a bloom over every change they do not imply.
    fn make_bloom_filter(&self, last_sync: &Vec<ChangeHash>) -> (r: Have)
        requires
            self.wf(),
        ensures
            r@.last_sync == last_sync.deep_view(),
            r@.bloom == spec_bloom_from(
                hashes_of(changes_since(self@, as_set(last_sync.deep_view()), 0)),
            ),
            bloom_view_wf(r@.bloom),
    {
        let ghost st = as_set(last_sync.deep_view());
        let changes = self.get_changes(last_sync.as_slice());
        let ghost cd = changes.deep_view();
        proof {
            assert(cd.len() == changes@.len());
            crate::doc::lemma_changes_since_elems(self@, st, 0);
        }
        let mut hashes: Vec<ChangeHash> = Vec::new();
        let mut i: usize = 0;
        while i < changes.len()
            invariant
                0 <= i <= changes@.len(),
                cd == changes.deep_view(),
                cd.len() == changes@.len(),
                hashes@.len() == i,
                forall|q: int| 0 <= q < i ==> hashes.deep_view()[q] == cd[q].hash,
            decreases changes@.len() - i,
        {
            let ghost hpre = hashes.deep_view();
            hashes.push(changes[i].hash());
            proof {
                assert(hashes.deep_view() =~= hpre.push(cd[i as int].hash));
            }
            i = i + 1;
        }
        proof {
            assert(hashes.deep_view() =~= hashes_of(cd));
            assert(hashes@.len() <= crate::bloom::MAX_BLOOM_ENTRIES);
        }
        let bloom = BloomFilter::from_hashes(hashes.as_slice());
        Have { last_sync: copy_hashes(last_sync), bloom }
    }
}

/// The peer's announced heads, or none yet.
pub open spec fn their_heads_or_empty(st: StateView) -> Seq<Seq<u8>> {
    match st.their_heads {
        Some(h) => h,
        None => Seq::empty(),
    }
}

/// We must ask for a reset when the peer's first summary rests on heads
/// we do not hold: we cannot interpret its bloom.
pub open spec fn reset_needed(s: Seq<ChangeView>, st: StateView) -> bool {
    match st.their_have {
        Some(hs) => hs.len() > 0 && exists|h: Seq<u8>|
            #[trigger] hs[0].last_sync.contains(h) && !store_has(s, h),
        None => false,
    }
}

/// The heads the peer announced that we cannot resolve locally.
pub open spec fn spec_our_need(s: Seq<ChangeView>, st: StateView) -> Set<Seq<u8>> {
    Set::new(|h: Seq<u8>| their_heads_or_empty(st).contains(h) && !store_has(s, h))
}

/// What selection yields for the remembered peer state; empty before
/// the first receive.
pub open spec fn spec_to_send(s: Seq<ChangeView>, st: StateView) -> Seq<ChangeView> {
    match (st.their_have, st.their_need) {
        (Some(hs), Some(nd)) => spec_changes_to_send(s, hs, nd),
        _ => Seq::empty(),
    }
}

/// The selection with every already-sent change removed.
pub open spec fn drop_sent(cs: Seq<ChangeView>, sent: Seq<Seq<u8>>) -> Seq<ChangeView>
    decreases cs.len(),
{
    if cs.len() == 0 {
        Seq::empty()
    } else if sent.contains(cs[0].hash) {
        drop_sent(cs.skip(1), sent)
    } else {
        seq![cs[0]] + drop_sent(cs.skip(1), sent)
    }
}

/// When the generator stays silent: no reset pending, our heads are
/// unchanged since the last send and equal to the peer's, nothing to
/// send and nothing to ask for.
pub open spec fn generate_is_silent(s: Seq<ChangeView>, st: StateView) -> bool {
    &&& !reset_needed(s, st)
    &&& is_heads_rep(s, st.last_sent_heads)
    &&& match st.their_heads {
        Some(th) => is_heads_rep(s, th),
        None => false,
    }
    &&& spec_to_send(s, st).len() == 0
    &&& forall|h: Seq<u8>| !spec_our_need(s, st).contains(h)
}

impl Automerge {
    /// Computes the next outbound message, or nothing when the pair is
    /// in sync. A reset request goes out when the peer's summary rests
    /// on heads we lack; otherwise the message carries our heads, what
    /// we still need, a summary of what we hold beyond the shared
    /// heads, and the selected changes not yet sent in this session.
    /// The session state remembers the send.
    #[verifier::loop_isolation(false)]
    #[verifier::rlimit(100)]
    pub fn generate_sync_message(&self, state: &mut State) -> (r: Option<Message>)
        requires
            self.wf(),
            state_wf(old(state)@),
        ensures
            state_wf(final(state)@),
            (r is Some) <==> !generate_is_silent(self@, old(state)@),
            match r {
                None => final(state)@ == old(state)@,
                Some(m) => {
                    let s = self@;
                    let st0 = old(state)@;
                    &&& message_wf(m@)
                    &&& forall|i: int|
                        0 <= i < m@.have.len() ==> bloom_view_wf(#[trigger] m@.have[i].bloom)
                    &&& is_heads_rep(s, m@.heads)
                    &&& if reset_needed(s, st0) {
                        &&& m@.need == Seq::<Seq<u8>>::empty()
                        &&& m@.have.len() == 1
                        &&& m@.have[0].last_sync == Seq::<Seq<u8>>::empty()
                        &&& m@.have[0].bloom == (BloomView {
                            n: 0,
                            k: 0,
                            m: 0,
                            bits: Seq::<u8>::empty(),
                        })
                        &&& m@.changes == Seq::<ChangeView>::empty()
                        &&& final(state)@ == st0
                    } else {
                        &&& lex_sorted_strict(m@.need)
                        &&& forall|h: Seq<u8>|
                            #![trigger m@.need.contains(h)]
                            m@.need.contains(h) <==> spec_our_need(s, st0).contains(h)
                        &&& m@.have.len() == 1
                        &&& m@.have[0].last_sync == st0.shared_heads
                        &&& m@.have[0].bloom == spec_bloom_from(
                            hashes_of(changes_since(s, as_set(st0.shared_heads), 0)),
                        )
                        &&& m@.changes == drop_sent(spec_to_send(s, st0), st0.sent_hashes)
                        &&& final(state)@.shared_heads == st0.shared_heads
                        &&& final(state)@.their_heads == st0.their_heads
                        &&& final(state)@.their_need == st0.their_need
                        &&& final(state)@.their_have == st0.their_have
                        &&& final(state)@.last_sent_heads == m@.heads
                        &&& forall|h: Seq<u8>|
                            #![trigger final(state)@.sent_hashes.contains(h)]
                            final(state)@.sent_hashes.contains(h) <==> st0.sent_hashes.contains(h)
                                || hashes_of(m@.changes).contains(h)
                    }
                },
            },
    {
        let ghost s = self@;
        let ghost st0 = old(state)@;
        let our_heads = self.get_heads();
        let empty_heads: Vec<ChangeHash> = Vec::new();
        proof {
            assert(empty_heads.deep_view() =~= Seq::<Seq<u8>>::empty());
        }
        let their_heads_ref: &Vec<ChangeHash> = match &state.their_heads {
            Some(v) => v,
            None => &empty_heads,
        };
        proof {
            assert(their_heads_ref.deep_view() == their_heads_or_empty(st0));
        }
        let th_slice = their_heads_ref.as_slice();
        proof {
            assert(th_slice.deep_view() =~= their_heads_ref.deep_view());
        }
        let our_need = self.get_missing_deps(th_slice);
        proof {
            assert(forall|h: Seq<u8>|
                #![trigger our_need.deep_view().contains(h)]
                our_need.deep_view().contains(h) <==> spec_our_need(s, st0).contains(h));
        }
        // Every hash we need is one the peer itself claims as a head, so
        // we can always summarize usefully; the check mirrors the rule.
        let mut all_in = true;
        let mut ni: usize = 0;
        while ni < our_need.len()
            invariant
                0 <= ni <= our_need@.len(),
                all_in,
            decreases our_need@.len() - ni,
        {
            proof {
                assert(our_need.deep_view()[ni as int] == our_need@[ni as int]@);
                assert(our_need.deep_view().contains(our_need.deep_view()[ni as int]));
            }
            if !contains_hash(th_slice, &our_need[ni]) {
                all_in = false;
                proof {
                    assert(spec_our_need(s, st0).contains(our_need.deep_view()[ni as int]));
                    assert(false);
                }
            }
            ni = ni + 1;
        }
        let our_have: Vec<Have> = if all_in {
            let mut v: Vec<Have> = Vec::new();
            v.push(self.make_bloom_filter(&state.shared_heads));
            v
        } else {
            Vec::new()
        };
        proof {
            assert(our_have.deep_view().len() == 1);
            assert(our_have.deep_view()[0] == our_have@[0]@);
        }
        // Reset detection: the peer's first summary must rest on heads
        // we hold, else we ask for a full resync.
        let mut reset = false;
        match &state.their_have {
            Some(hv) => {
                if hv.len() > 0 {
                    let ghost lsv = hv.deep_view()[0].last_sync;
                    proof {
                        assert(hv@[0]@ == hv.deep_view()[0]);
                        assert(hv@[0].last_sync.deep_view() == lsv);
                        assert(lsv.len() == hv@[0].last_sync@.len());
                    }
                    let ls = &hv[0].last_sync;
                    let mut q: usize = 0;
                    while q < ls.len()
                        invariant
                            0 <= q <= ls@.len(),
                            ls.deep_view() == lsv,
                            lsv.len() == ls@.len(),
                            reset <==> exists|p: int|
                                0 <= p < q && !store_has(s, #[trigger] lsv[p]),
                        decreases ls@.len() - q,
                    {
                        proof {
                            assert(ls@[q as int]@ == lsv[q as int]);
                        }
                        match self.get_change_by_hash(&ls[q]) {
                            None => {
                                proof {
                                    assert(!store_has(s, lsv[q as int]));
                                }
                                reset = true;
                            },
                            Some(_) => {
                            },
                        }
                        q = q + 1;
                    }
                    proof {
                        assert(reset <==> exists|h: Seq<u8>|
                            #[trigger] lsv.contains(h) && !store_has(s, h)) by {
                            if reset {
                                let p = choose|p: int| 0 <= p < q && !store_has(s, lsv[p]);
                                assert(lsv.contains(lsv[p]));
                            }
                            if exists|h: Seq<u8>| #[trigger] lsv.contains(h) && !store_has(s, h) {
                                let h = choose|h: Seq<u8>|
                                    #[trigger] lsv.contains(h) && !store_has(s, h);
                                let p = choose|p: int| 0 <= p < lsv.len() && lsv[p] == h;
                                assert(0 <= p < q && !store_has(s, lsv[p]));
                            }
                        }
                        assert(reset == reset_needed(s, st0));
                    }
                } else {
                    proof {
                        assert(!reset_needed(s, st0));
                    }
                }
            },
            None => {
                proof {
                    assert(!reset_needed(s, st0));
                }
            },
        }
        if reset {
            let mut rhave: Vec<Have> = Vec::new();
            rhave.push(Have::default());
            let msg = Message {
                heads: our_heads,
                need: Vec::new(),
                have: rhave,
                changes: Vec::new(),
            };
            proof {
                assert(msg@.need =~= Seq::<Seq<u8>>::empty());
                assert(msg@.changes =~= Seq::<ChangeView>::empty());
                assert(msg@.have.len() == 1);
                assert(msg@.have[0] == rhave@[0]@);
                assert(message_wf(msg@));
            }
            return Some(msg);
        }
        let changes_to_send: Vec<Change> = match (&state.their_have, &state.their_need) {
            (Some(hvs), Some(nds)) => {
                let nd_slice = nds.as_slice();
                proof {
                    assert(nd_slice.deep_view() =~= nds.deep_view());
                    assert(st0.their_have == Some(hvs.deep_view()));
                    assert forall|i: int|
                        0 <= i < hvs@.len() implies bloom_view_wf(
                        #[trigger] hvs.deep_view()[i].bloom,
                    ) by {
                        let hs = st0.their_have->Some_0;
                        assert(bloom_view_wf(hs[i].bloom));
                    }
                }
                self.get_changes_to_send(hvs, nd_slice)
            },
            _ => Vec::new(),
        };
        proof {
            assert(changes_to_send.deep_view() == spec_to_send(s, st0)) by {
                if st0.their_have is Some && st0.their_need is Some {
                } else {
                    assert(changes_to_send.deep_view() =~= Seq::<ChangeView>::empty());
                }
            }
        }
        let heads_unchanged = eq_hashes(&state.last_sent_heads, &our_heads);
        let heads_equal = match &state.their_heads {
            Some(th) => eq_hashes(th, &our_heads),
            None => false,
        };
        proof {
            if heads_unchanged {
                assert(is_heads_rep(s, st0.last_sent_heads));
            } else {
                if is_heads_rep(s, st0.last_sent_heads) {
                    crate::hash::lemma_sorted_strict_unique(
                        st0.last_sent_heads,
                        our_heads.deep_view(),
                    );
                    assert(false);
                }
            }
            match st0.their_heads {
                Some(th) => {
                    if heads_equal {
                        assert(is_heads_rep(s, th));
                    } else {
                        if is_heads_rep(s, th) {
                            crate::hash::lemma_sorted_strict_unique(th, our_heads.deep_view());
                            assert(false);
                        }
                    }
                },
                None => {
                },
            }
        }
        if heads_unchanged && heads_equal && changes_to_send.len() == 0 && our_need.len() == 0 {
            proof {
                assert(changes_to_send.deep_view().len() == 0);
                assert forall|h: Seq<u8>| !spec_our_need(s, st0).contains(h) by {
                    if spec_our_need(s, st0).contains(h) {
                        assert(our_need.deep_view().contains(h));
                    }
                }
                assert(generate_is_silent(s, st0));
            }
            return None;
        }
        // Drop anything already sent in this session.
        let ghost cts = changes_to_send.deep_view();
        let ghost sent0 = st0.sent_hashes;
        let mut final_changes: Vec<Change> = Vec::new();
        proof {
            assert(cts.skip(0) =~= cts);
            assert(final_changes.deep_view() =~= Seq::<ChangeView>::empty());
            assert(final_changes.deep_view() + drop_sent(cts, sent0) =~= drop_sent(cts, sent0));
        }
        let mut ci: usize = 0;
        while ci < changes_to_send.len()
            invariant
                0 <= ci <= changes_to_send@.len(),
                state@ == st0,
                drop_sent(cts, sent0) == final_changes.deep_view() + drop_sent(
                    cts.skip(ci as int),
                    sent0,
                ),
            decreases changes_to_send@.len() - ci,
        {
            proof {
                assert(cts.skip(ci as int)[0] == cts[ci as int]);
                assert(cts.skip(ci as int).skip(1) =~= cts.skip(ci as int + 1));
                assert(changes_to_send@[ci as int]@ == cts[ci as int]);
            }
            let ss_slice = state.sent_hashes.as_slice();
            proof {
                assert(ss_slice.deep_view() =~= sent0);
            }
            if !contains_hash(ss_slice, &changes_to_send[ci].hash) {
                let ghost pre = final_changes.deep_view();
                final_changes.push(changes_to_send[ci].clone());
                proof {
                    assert(final_changes.deep_view() =~= pre.push(cts[ci as int]));
                    assert(pre + (seq![cts[ci as int]] + drop_sent(cts.skip(ci as int + 1), sent0))
                        =~= final_changes.deep_view() + drop_sent(cts.skip(ci as int + 1), sent0));
                }
            }
            ci = ci + 1;
        }
        proof {
            assert(cts.skip(changes_to_send@.len() as int) =~= Seq::<ChangeView>::empty());
            assert(drop_sent(Seq::<ChangeView>::empty(), sent0) == Seq::<ChangeView>::empty());
            assert(final_changes.deep_view() + Seq::<ChangeView>::empty() =~= final_changes
                .deep_view());
        }
        // Remember the send.
        state.last_sent_heads = copy_hashes(&our_heads);
        let ghost fc = final_changes.deep_view();
        let mut si: usize = 0;
        while si < final_changes.len()
            invariant
                0 <= si <= final_changes@.len(),
                fc == final_changes.deep_view(),
                fc.len() == final_changes@.len(),
                lex_sorted_strict(state@.sent_hashes),
                state@.shared_heads == st0.shared_heads,
                state@.their_heads == st0.their_heads,
                state@.their_need == st0.their_need,
                state@.their_have == st0.their_have,
                state@.last_sent_heads == our_heads.deep_view(),
                forall|h: Seq<u8>|
                    #![trigger state@.sent_hashes.contains(h)]
                    state@.sent_hashes.contains(h) <==> sent0.contains(h) || (exists|p: int|
                        0 <= p < si && #[trigger] fc[p].hash == h),
            decreases final_changes@.len() - si,
        {
            proof {
                assert(final_changes@[si as int]@ == fc[si as int]);
            }
            sorted_insert(&mut state.sent_hashes, final_changes[si].hash());
            si = si + 1;
        }
        proof {
            assert forall|h: Seq<u8>|
                #![trigger state@.sent_hashes.contains(h)]
                state@.sent_hashes.contains(h) <==> sent0.contains(h) || hashes_of(fc).contains(
                    h,
                ) by {
                if state@.sent_hashes.contains(h) && !sent0.contains(h) {
                    let p = choose|p: int| 0 <= p < si && #[trigger] fc[p].hash == h;
                    assert(hashes_of(fc)[p] == h);
                }
                if hashes_of(fc).contains(h) {
                    let p = choose|p: int| 0 <= p < hashes_of(fc).len() && hashes_of(fc)[p] == h;
                    assert(fc[p].hash == h);
                }
            }
        }
        let msg = Message {
            heads: our_heads,
            need: our_need,
            have: our_have,
            changes: final_changes,
        };
        proof {
            assert(msg@.have[0].last_sync == st0.shared_heads);
            assert(message_wf(msg@));
            assert(!generate_is_silent(s, st0)) by {
                if generate_is_silent(s, st0) {
                    assert(heads_unchanged);
                    assert(heads_equal);
                    assert(cts.len() == changes_to_send@.len());
                    assert(changes_to_send.len() == 0);
                    if our_need.len() > 0 {
                        assert(our_need.deep_view().contains(our_need.deep_view()[0]));
                        assert(spec_our_need(s, st0).contains(our_need.deep_view()[0]));
                        assert(false);
                    }
                    assert(false);
                }
            }
        }
        Some(msg)
    }
}

/// The set of current head hashes.
pub open spec fn heads_set(s: Seq<ChangeView>) -> Set<Seq<u8>> {
    Set::new(
        |h: Seq<u8>| exists|i: int| 0 <= i < s.len() && s[i].hash == h && is_head(s, i),
    )
}

/// Whether we hold a change for every announced head.
pub open spec fn all_heads_known(s: Seq<ChangeView>, heads: Seq<Seq<u8>>) -> bool {
    forall|h: Seq<u8>| heads.contains(h) ==> store_has(s, h)
}

/// The shared heads after an apply: heads new to us, plus previously
/// shared heads still current.
pub open spec fn advanced_shared(
    before: Set<Seq<u8>>,
    after: Set<Seq<u8>>,
    shared: Seq<Seq<u8>>,
) -> Set<Seq<u8>> {
    Set::new(
        |h: Seq<u8>| (after.contains(h) && !before.contains(h)) || (shared.contains(h)
            && after.contains(h)),
    )
}

/// The shared heads a successful receive leaves behind. `s0` and `s1`
/// are the store before and after the message's changes were applied.
pub open spec fn spec_shared_after(
    s0: Seq<ChangeView>,
    s1: Seq<ChangeView>,
    st0: StateView,
    m: MessageView,
) -> Set<Seq<u8>> {
    let shared1 = if m.changes.len() > 0 {
        advanced_shared(heads_set(s0), heads_set(s1), st0.shared_heads)
    } else {
        as_set(st0.shared_heads)
    };
    if all_heads_known(s1, m.heads) {
        as_set(m.heads)
    } else {
        shared1 + Set::new(|h: Seq<u8>| m.heads.contains(h) && store_has(s1, h))
    }
}

impl Automerge {
    /// Integrates an inbound message: applies its changes, advances the
    /// inferred shared heads, trims the sent-hash memory to what the
    /// peer still lacks, resets the session if the peer was wiped, and
    /// remembers the peer's announcements. On an apply error neither
    /// the store nor the session state is touched.
    #[verifier::loop_isolation(false)]
    #[verifier::rlimit(100)]
    pub fn receive_sync_message(&mut self, state: &mut State, message: Message) -> (r: Result<
        (),
        ApplyError,
    >)
        requires
            old(self).wf(),
            state_wf(old(state)@),
            forall|i: int|
                0 <= i < message@.have.len() ==> bloom_view_wf(#[trigger] message@.have[i].bloom),
        ensures
            final(self).wf(),
            state_wf(final(state)@),
            match r {
                Err(e) => {
                    &&& final(self)@ == old(self)@
                    &&& final(state)@ == old(state)@
                    &&& message@.changes.len() > 0
                    &&& match e {
                        ApplyError::TooManyChanges => old(self)@.len() + message@.changes.len()
                            > crate::bloom::MAX_BLOOM_ENTRIES,
                        ApplyError::MissingDep(d) => old(self)@.len() + message@.changes.len()
                            <= crate::bloom::MAX_BLOOM_ENTRIES && spec_apply(
                            old(self)@,
                            message@.changes,
                        ) == Err::<Seq<ChangeView>, Seq<u8>>(d@),
                    }
                },
                Ok(_) => {
                    let s0 = old(self)@;
                    let s1 = final(self)@;
                    let st0 = old(state)@;
                    let m = message@;
                    &&& (m.changes.len() == 0 ==> s1 == s0)
                    &&& (m.changes.len() > 0 ==> spec_apply(s0, m.changes) == Ok::<
                        Seq<ChangeView>,
                        Seq<u8>,
                    >(s1))
                    &&& final(state)@.their_heads == Some(m.heads)
                    &&& final(state)@.their_need == Some(m.need)
                    &&& final(state)@.their_have == Some(m.have)
                    &&& forall|h: Seq<u8>|
                        #![trigger final(state)@.shared_heads.contains(h)]
                        final(state)@.shared_heads.contains(h) <==> spec_shared_after(
                            s0,
                            s1,
                            st0,
                            m,
                        ).contains(h)
                    &&& if m.heads.len() == 0 {
                        &&& final(state)@.sent_hashes.len() == 0
                        &&& final(state)@.last_sent_heads.len() == 0
                    } else {
                        &&& forall|h: Seq<u8>|
                            #![trigger final(state)@.sent_hashes.contains(h)]
                            final(state)@.sent_hashes.contains(h) <==> st0.sent_hashes.contains(h)
                                && !hash_implied(s1, as_set(m.heads), h)
                        &&& final(state)@.last_sent_heads == if m.changes.len() == 0
                            && is_heads_rep(s0, m.heads) {
                            m.heads
                        } else {
                            st0.last_sent_heads
                        }
                    }
                },
            },
    {
        let ghost s0 = self@;
        let ghost st0 = old(state)@;
        let ghost mv = message@;
        let before_heads = self.get_heads();
        let Message { heads: message_heads, need: message_need, have: message_have, changes:
            message_changes } = message;
        proof {
            assert(message_heads.deep_view() == mv.heads);
            assert(message_need.deep_view() == mv.need);
            assert(message_have.deep_view() == mv.have);
            assert(message_changes.deep_view() == mv.changes);
            assert(mv.changes.len() == message_changes@.len());
        }
        let changes_is_empty = message_changes.len() == 0;
        if !changes_is_empty {
            match self.apply_changes(message_changes) {
                Err(e) => {
                    return Err(e);
                },
                Ok(_) => {
                },
            }
            let new_heads = self.get_heads();
            let ghost s1 = self@;
            let adv = advance_heads(&before_heads, &new_heads, &state.shared_heads);
            proof {
                assert forall|h: Seq<u8>| new_heads.deep_view().contains(h) <==> heads_set(
                    s1,
                ).contains(h) by {}
                assert forall|h: Seq<u8>| before_heads.deep_view().contains(h) <==> heads_set(
                    s0,
                ).contains(h) by {}
            }
            state.shared_heads = adv;
            proof {
                assert(forall|h: Seq<u8>|
                    #![trigger state@.shared_heads.contains(h)]
                    state@.shared_heads.contains(h) <==> advanced_shared(
                        heads_set(s0),
                        heads_set(s1),
                        st0.shared_heads,
                    ).contains(h));
            }
        }
        let ghost s1 = self@;
        let ghost shared1 = state@.shared_heads;
        proof {
            assert(state@.sent_hashes == st0.sent_hashes);
            assert(state@.last_sent_heads == st0.last_sent_heads);
            assert(lex_sorted_strict(shared1));
        }
        // Trim the sent-hash memory to what the peer still lacks.
        let mh_slice = message_heads.as_slice();
        proof {
            assert(mh_slice.deep_view() =~= mv.heads);
        }
        self.filter_changes(mh_slice, &mut state.sent_hashes);
        // If nothing arrived and the peer already sees our heads, there
        // is no call to repeat them.
        if changes_is_empty && eq_hashes(&message_heads, &before_heads) {
            state.last_sent_heads = copy_hashes(&message_heads);
            proof {
                assert(is_heads_rep(s0, mv.heads));
            }
        } else {
            proof {
                if changes_is_empty && is_heads_rep(s0, mv.heads) {
                    crate::hash::lemma_sorted_strict_unique(mv.heads, before_heads.deep_view());
                    assert(false);
                }
            }
        }
        // Which announced heads we hold.
        let mut all_known = true;
        let mut known: Vec<ChangeHash> = Vec::new();
        proof {
            assert(known.deep_view() =~= Seq::<Seq<u8>>::empty());
        }
        let mut i: usize = 0;
        while i < message_heads.len()
            invariant
                0 <= i <= message_heads@.len(),
                message_heads.deep_view() == mv.heads,
                mv.heads.len() == message_heads@.len(),
                self@ == s1,
                lex_sorted_strict(known.deep_view()),
                all_known <==> forall|q: int| 0 <= q < i ==> store_has(s1, #[trigger] mv.heads[q]),
                forall|h: Seq<u8>|
                    #![trigger known.deep_view().contains(h)]
                    known.deep_view().contains(h) <==> (exists|q: int|
                        0 <= q < i && mv.heads[q] == h) && store_has(s1, h),
            decreases message_heads@.len() - i,
        {
            let ghost h_v = mv.heads[i as int];
            let ghost pre = known.deep_view();
            proof {
                assert(message_heads@[i as int]@ == mv.heads[i as int]);
            }
            let mut found = false;
            match self.get_change_by_hash(&message_heads[i]) {
                Some(_) => {
                    found = true;
                },
                None => {
                    all_known = false;
                },
            }
            if found {
                sorted_insert(&mut known, message_heads[i]);
            }
            proof {
                assert forall|h: Seq<u8>|
                    #![trigger known.deep_view().contains(h)]
                    known.deep_view().contains(h) <==> ((exists|q: int|
                        0 <= q < i + 1 && mv.heads[q] == h) && store_has(s1, h)) by {
                    if known.deep_view().contains(h) {
                        if found && h == h_v {
                            assert(mv.heads[i as int] == h);
                        } else {
                            assert(pre.contains(h));
                        }
                    }
                    if (exists|q: int| 0 <= q < i + 1 && mv.heads[q] == h) && store_has(s1, h) {
                        let q = choose|q: int| 0 <= q < i + 1 && mv.heads[q] == h;
                        if q < i {
                            assert(pre.contains(h));
                        } else {
                            assert(h == h_v && found);
                        }
                        assert(known.deep_view().contains(h));
                    }
                }
            }
            i = i + 1;
        }
        if all_known {
            // The peer's heads are all ours: they are the shared heads
            // now. An empty announcement means the peer lost its data;
            // forget the session's send history to force a full resync.
            state.shared_heads = known;
            proof {
                assert forall|h: Seq<u8>|
                    #![trigger state@.shared_heads.contains(h)]
                    state@.shared_heads.contains(h) <==> spec_shared_after(
                        s0,
                        s1,
                        st0,
                        mv,
                    ).contains(h) by {
                    if state@.shared_heads.contains(h) {
                        assert(mv.heads.contains(h));
                    }
                    if mv.heads.contains(h) {
                        let q = choose|q: int| 0 <= q < mv.heads.len() && mv.heads[q] == h;
                        assert(store_has(s1, mv.heads[q]));
                    }
                }
            }
            if message_heads.len() == 0 {
                state.last_sent_heads = Vec::new();
                state.sent_hashes = Vec::new();
                proof {
                    assert(state@.sent_hashes =~= Seq::<Seq<u8>>::empty());
                    assert(state@.last_sent_heads =~= Seq::<Seq<u8>>::empty());
                }
            }
        } else {
            proof {
                let q = choose|q: int|
                    0 <= q < mv.heads.len() && !store_has(s1, #[trigger] mv.heads[q]);
                assert(mv.heads.contains(mv.heads[q]));
                assert(!all_heads_known(s1, mv.heads));
                assert(mv.heads.len() > 0);
            }
            // Keep what was shared and add the announced heads we hold.
            let ghost sent_f = state@.sent_hashes;
            let ghost their_have_f = state@.their_have;
            let ghost their_heads_f = state@.their_heads;
            let ghost their_need_f = state@.their_need;
            let mut j: usize = 0;
            while j < known.len()
                invariant
                    0 <= j <= known@.len(),
                    known.deep_view().len() == known@.len(),
                    lex_sorted_strict(state@.shared_heads),
                    state@.sent_hashes == sent_f,
                    lex_sorted_strict(sent_f),
                    state@.their_have == their_have_f,
                    state@.their_heads == their_heads_f,
                    state@.their_need == their_need_f,
                    state@.last_sent_heads == if changes_is_empty && is_heads_rep(s0, mv.heads) {
                        mv.heads
                    } else {
                        st0.last_sent_heads
                    },
                    forall|h: Seq<u8>|
                        #![trigger state@.shared_heads.contains(h)]
                        state@.shared_heads.contains(h) <==> shared1.contains(h) || (exists|q: int|
                            0 <= q < j && known.deep_view()[q] == h),
                decreases known@.len() - j,
            {
                let ghost pre = state@.shared_heads;
                let ghost h_v = known.deep_view()[j as int];
                proof {
                    assert(known@[j as int]@ == known.deep_view()[j as int]);
                }
                sorted_insert(&mut state.shared_heads, known[j]);
                proof {
                    assert forall|h: Seq<u8>|
                        #![trigger state@.shared_heads.contains(h)]
                        state@.shared_heads.contains(h) <==> (shared1.contains(h) || (exists|
                            q: int,
                        |
                            0 <= q < j + 1 && known.deep_view()[q] == h)) by {
                        if state@.shared_heads.contains(h) {
                            if h != h_v {
                                assert(pre.contains(h));
                            } else {
                                assert(known.deep_view()[j as int] == h);
                            }
                        }
                        if shared1.contains(h) || (exists|q: int|
                            0 <= q < j + 1 && known.deep_view()[q] == h) {
                            if shared1.contains(h) {
                                assert(pre.contains(h));
                            } else {
                                let q = choose|q: int|
                                    0 <= q < j + 1 && known.deep_view()[q] == h;
                                if q < j {
                                    assert(pre.contains(h));
                                }
                            }
                            assert(state@.shared_heads.contains(h));
                        }
                    }
                }
                j = j + 1;
            }
            proof {
                assert forall|h: Seq<u8>|
                    #![trigger state@.shared_heads.contains(h)]
                    state@.shared_heads.contains(h) <==> spec_shared_after(
                        s0,
                        s1,
                        st0,
                        mv,
                    ).contains(h) by {
                    if exists|q: int| 0 <= q < known@.len() && known.deep_view()[q] == h {
                        assert(known.deep_view().contains(h));
                    }
                    if known.deep_view().contains(h) {
                        let q = choose|q: int|
                            0 <= q < known.deep_view().len() && known.deep_view()[q] == h;
                        assert(0 <= q < known@.len() && known.deep_view()[q] == h);
                    }
                }
            }
        }
        let ghost sh_mid = state@.shared_heads;
        let ghost ls_mid = state@.last_sent_heads;
        let ghost sent_mid = state@.sent_hashes;
        state.their_have = Some(message_have);
        state.their_heads = Some(message_heads);
        state.their_need = Some(message_need);
        proof {
            assert(state@.shared_heads == sh_mid);
            assert(state@.last_sent_heads == ls_mid);
            assert(state@.sent_hashes == sent_mid);
            assert(state@.their_have == Some(mv.have));
            assert(state@.their_heads == Some(mv.heads));
            assert(state@.their_need == Some(mv.need));
            assert(forall|h: Seq<u8>|
                #![trigger state@.shared_heads.contains(h)]
                state@.shared_heads.contains(h) <==> spec_shared_after(s0, s1, st0, mv).contains(
                    h,
                ));
            if mv.heads.len() > 0 {
                assert(forall|h: Seq<u8>|
                    #![trigger state@.sent_hashes.contains(h)]
                    state@.sent_hashes.contains(h) <==> st0.sent_hashes.contains(h)
                        && !hash_implied(s1, as_set(mv.heads), h));
            }
            assert(state_wf(state@)) by {
                match state@.their_have {
                    Some(hs) => {
                        assert(hs == mv.have);
                        assert forall|i2: int|
                            0 <= i2 < hs.len() implies bloom_view_wf(#[trigger] hs[i2].bloom) by {
                            assert(bloom_view_wf(mv.have[i2].bloom));
                        }
                    },
                    None => {
                    },
                }
            }
        }
        Ok(())
    }
}

/// Whether two hash vectors hold the same hashes in the same order.
fn eq_hashes(a: &Vec<ChangeHash>, b: &Vec<ChangeHash>) -> (r: bool)
    ensures
        r <==> a.deep_view() == b.deep_view(),
{
    if a.len() != b.len() {
        proof {
            assert(a.deep_view().len() == a@.len());
            assert(b.deep_view().len() == b@.len());
        }
        return false;
    }
    let mut i: usize = 0;
    while i < a.len()
        invariant
            0 <= i <= a@.len(),
            a@.len() == b@.len(),
            forall|j: int| 0 <= j < i ==> a.deep_view()[j] == b.deep_view()[j],
        decreases a@.len() - i,
    {
        if crate::hash::cmp_hashes(&a[i], &b[i]) != 0 {
            proof {
                assert(a.deep_view()[i as int] != b.deep_view()[i as int]);
            }
            return false;
        }
        i = i + 1;
    }
    proof {
        assert(a.deep_view() =~= b.deep_view());
    }
    true
}

} // verus!
