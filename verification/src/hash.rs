//! Change hashes: 32-byte content-addressed identifiers, ordered
//! lexicographically, together with the sorted-vector helpers that the
//! rest of the protocol builds its hash sets from.

use vstd::prelude::*;

verus! {

/// Number of bytes in a change hash.
pub const HASH_SIZE: usize = 32;

/// A 32-byte identifier of a change. Identical changes have identical
/// hashes; distinct changes are assumed to have distinct hashes.
#[derive(Clone, Copy, Debug)]
pub struct ChangeHash(pub [u8; 32]);

impl View for ChangeHash {
    type V = Seq<u8>;

    open spec fn view(&self) -> Seq<u8> {
        self.0@
    }
}

impl DeepView for ChangeHash {
    type V = Seq<u8>;

    open spec fn deep_view(&self) -> Seq<u8> {
        self.0@
    }
}

/// Strict lexicographic order on byte sequences: a proper prefix comes
/// before any of its extensions.
pub open spec fn lex_lt(a: Seq<u8>, b: Seq<u8>) -> bool
    decreases a.len(),
{
    if b.len() == 0 {
        false
    } else if a.len() == 0 {
        true
    } else {
        a[0] < b[0] || (a[0] == b[0] && lex_lt(a.skip(1), b.skip(1)))
    }
}

/// Non-strict lexicographic order.
pub open spec fn lex_leq(a: Seq<u8>, b: Seq<u8>) -> bool {
    lex_lt(a, b) || a == b
}

/// A sequence of hash values in non-decreasing wire order.
pub open spec fn lex_sorted(s: Seq<Seq<u8>>) -> bool {
    forall|i: int, j: int| 0 <= i < j < s.len() ==> lex_leq(s[i], s[j])
}

/// A sequence of hash values in strictly increasing order; such a
/// sequence has no duplicates and is determined by the set it holds.
pub open spec fn lex_sorted_strict(s: Seq<Seq<u8>>) -> bool {
    forall|i: int, j: int| 0 <= i < j < s.len() ==> lex_lt(s[i], s[j])
}

pub proof fn lemma_lex_lt_irrefl(a: Seq<u8>)
    ensures
        !lex_lt(a, a),
    decreases a.len(),
{
    if a.len() > 0 {
        lemma_lex_lt_irrefl(a.skip(1));
    }
}

pub proof fn lemma_lex_lt_trans(a: Seq<u8>, b: Seq<u8>, c: Seq<u8>)
    requires
        lex_lt(a, b),
        lex_lt(b, c),
    ensures
        lex_lt(a, c),
    decreases a.len(),
{
    if a.len() > 0 && b.len() > 0 && c.len() > 0 {
        if a[0] == b[0] && b[0] == c[0] {
            lemma_lex_lt_trans(a.skip(1), b.skip(1), c.skip(1));
        }
    }
}

/// Exactly one of `lex_lt(a, b)`, `a == b`, `lex_lt(b, a)` holds.
pub proof fn lemma_lex_trichotomy(a: Seq<u8>, b: Seq<u8>)
    ensures
        lex_lt(a, b) || lex_lt(b, a) || a == b,
        lex_lt(a, b) ==> a != b && !lex_lt(b, a),
        lex_lt(b, a) ==> a != b && !lex_lt(a, b),
    decreases a.len(),
{
    lemma_lex_lt_irrefl(a);
    lemma_lex_lt_irrefl(b);
    if lex_lt(a, b) && lex_lt(b, a) {
        lemma_lex_lt_trans(a, b, a);
    }
    if a.len() > 0 && b.len() > 0 && a[0] == b[0] {
        lemma_lex_trichotomy(a.skip(1), b.skip(1));
        if a.skip(1) == b.skip(1) {
            assert(a.len() == b.len());
            assert forall|i: int| 0 <= i < a.len() implies a[i] == b[i] by {
                if i >= 1 {
                    assert(a.skip(1)[i - 1] == a[i]);
                    assert(b.skip(1)[i - 1] == b[i]);
                }
            }
            assert(a =~= b);
        }
    }
}

/// If two sequences agree strictly before position `i` and differ at `i`,
/// the one with the smaller byte at `i` comes first.
pub proof fn lemma_lex_from_first_difference(a: Seq<u8>, b: Seq<u8>, i: int)
    requires
        0 <= i < a.len(),
        i < b.len(),
        forall|j: int| 0 <= j < i ==> a[j] == b[j],
        a[i] < b[i],
    ensures
        lex_lt(a, b),
    decreases i,
{
    if i > 0 {
        lemma_lex_from_first_difference(a.skip(1), b.skip(1), i - 1);
    }
}

impl PartialEq for ChangeHash {
    fn eq(&self, other: &ChangeHash) -> (r: bool) {
        cmp_hashes(self, other) == 0
    }
}

impl Eq for ChangeHash {}

impl vstd::std_specs::cmp::PartialEqSpecImpl for ChangeHash {
    open spec fn obeys_eq_spec() -> bool {
        true
    }

    open spec fn eq_spec(&self, other: &ChangeHash) -> bool {
        self@ == other@
    }
}

/// Three-way comparison in the lexicographic order: `-1` when `a` comes
/// first, `0` when the bytes are equal, `1` when `b` comes first.
pub fn cmp_hashes(a: &ChangeHash, b: &ChangeHash) -> (r: i8)
    ensures
        r == -1 <==> lex_lt(a@, b@),
        r == 0 <==> a@ == b@,
        r == 1 <==> lex_lt(b@, a@),
        r == -1 || r == 0 || r == 1,
{
    let mut i: usize = 0;
    while i < 32
        invariant
            0 <= i <= 32,
            forall|j: int| 0 <= j < i ==> a@[j] == b@[j],
        decreases 32 - i,
    {
        if a.0[i] < b.0[i] {
            proof {
                lemma_lex_from_first_difference(a@, b@, i as int);
                lemma_lex_trichotomy(a@, b@);
            }
            return -1;
        }
        if b.0[i] < a.0[i] {
            proof {
                lemma_lex_from_first_difference(b@, a@, i as int);
                lemma_lex_trichotomy(a@, b@);
            }
            return 1;
        }
        i = i + 1;
    }
    proof {
        assert(a@ =~= b@);
        lemma_lex_trichotomy(a@, b@);
    }
    0
}

/// Whether the slice holds a hash with the same bytes as `h`.
pub fn contains_hash(list: &[ChangeHash], h: &ChangeHash) -> (r: bool)
    ensures
        r <==> list.deep_view().contains(h@),
{
    let mut i: usize = 0;
    while i < list.len()
        invariant
            0 <= i <= list.deep_view().len(),
            list.deep_view().len() == list@.len(),
            forall|j: int| 0 <= j < i ==> list.deep_view()[j] != h@,
        decreases list@.len() - i,
    {
        if cmp_hashes(&list[i], h) == 0 {
            assert(list.deep_view()[i as int] == h@);
            return true;
        }
        i = i + 1;
    }
    false
}

/// Inserts `h` into a strictly sorted vector, keeping it strictly sorted;
/// a hash already present is left alone.
pub fn sorted_insert(v: &mut Vec<ChangeHash>, h: ChangeHash)
    requires
        lex_sorted_strict(old(v).deep_view()),
    ensures
        lex_sorted_strict(final(v).deep_view()),
        forall|x: Seq<u8>|
            final(v).deep_view().contains(x) <==> old(v).deep_view().contains(x) || x == h@,
{
    let mut i: usize = 0;
    while i < v.len()
        invariant
            0 <= i <= v@.len(),
            v@ == old(v)@,
            lex_sorted_strict(v.deep_view()),
            v.deep_view().len() == v@.len(),
            forall|j: int| 0 <= j < i ==> lex_lt(v.deep_view()[j], h@),
        decreases v@.len() - i,
    {
        let ghost dv0 = v.deep_view();
        let c = cmp_hashes(&v[i], &h);
        if c == 0 {
            assert(v.deep_view()[i as int] == h@);
            assert(v.deep_view().contains(h@));
            return ;
        }
        if c == 1 {
            // First position whose hash is larger: insert here.
            assert(lex_lt(h@, dv0[i as int]));
            proof {
                v@.insert_ensures(i as int, h);
            }
            v.insert(i, h);
            proof {
                let dv = v.deep_view();
                assert(dv.len() == dv0.len() + 1);
                assert forall|p: int| 0 <= p < dv.len() implies dv[p] == (if p < i {
                    dv0[p]
                } else if p == i {
                    h@
                } else {
                    dv0[p - 1]
                }) by {
                    if p < i {
                        assert(v@[p] == old(v)@[p]);
                    } else if p == i {
                        assert(v@[p] == h);
                    } else {
                        assert(v@[p] == old(v)@[p - 1]);
                    }
                }
                assert forall|p: int, q: int| 0 <= p < q < dv.len() implies lex_lt(
                    dv[p],
                    dv[q],
                ) by {
                    if p < i && q > i && q == i + 1 {
                        lemma_lex_lt_trans(dv[p], h@, dv0[i as int]);
                    }
                    if p == i && q > i + 1 {
                        lemma_lex_lt_trans(h@, dv0[i as int], dv0[q - 1]);
                    }
                }
                assert forall|x: Seq<u8>| dv.contains(x) implies dv0.contains(x) || x == h@ by {
                    let k = choose|k: int| 0 <= k < dv.len() && dv[k] == x;
                    if k < i {
                        assert(dv0[k] == x);
                    } else if k > i {
                        assert(dv0[k - 1] == x);
                    }
                }
                assert forall|x: Seq<u8>| dv0.contains(x) implies dv.contains(x) by {
                    let k = choose|k: int| 0 <= k < dv0.len() && dv0[k] == x;
                    if k < i {
                        assert(dv[k] == x);
                    } else {
                        assert(dv[k + 1] == x);
                    }
                }
                assert(dv.contains(h@)) by {
                    assert(dv[i as int] == h@);
                }
            }
            return ;
        }
        i = i + 1;
    }
    let ghost dv0 = v.deep_view();
    v.push(h);
    proof {
        let dv = v.deep_view();
        assert(dv =~= dv0.push(h@));
        assert forall|x: Seq<u8>| dv.contains(x) implies dv0.contains(x) || x == h@ by {
            let k = choose|k: int| 0 <= k < dv.len() && dv[k] == x;
            if k < dv0.len() {
                assert(dv0[k] == x);
            }
        }
        assert forall|x: Seq<u8>| dv0.contains(x) implies dv.contains(x) by {
            let k = choose|k: int| 0 <= k < dv0.len() && dv0[k] == x;
            assert(dv[k] == x);
        }
        assert(dv[dv.len() - 1] == h@);
        assert(dv.contains(h@));
    }
}

/// A fresh vector with the same hashes in the same order.
pub fn copy_hashes(src: &Vec<ChangeHash>) -> (r: Vec<ChangeHash>)
    ensures
        r.deep_view() == src.deep_view(),
        r@.len() == src@.len(),
{
    let mut r: Vec<ChangeHash> = Vec::new();
    let mut i: usize = 0;
    while i < src.len()
        invariant
            0 <= i <= src@.len(),
            r@.len() == i,
            forall|j: int| 0 <= j < i ==> r.deep_view()[j] == src.deep_view()[j],
        decreases src@.len() - i,
    {
        r.push(src[i]);
        i = i + 1;
    }
    proof {
        assert(r.deep_view() =~= src.deep_view());
    }
    r
}

/// Two strictly sorted sequences holding the same hashes are equal.
pub proof fn lemma_sorted_strict_unique(a: Seq<Seq<u8>>, b: Seq<Seq<u8>>)
    requires
        lex_sorted_strict(a),
        lex_sorted_strict(b),
        forall|x: Seq<u8>| a.contains(x) <==> b.contains(x),
    ensures
        a == b,
    decreases a.len(),
{
    if a.len() == 0 {
        if b.len() > 0 {
            assert(b.contains(b[0]));
            assert(false);
        }
        assert(a =~= b);
    } else {
        assert(a.contains(a[0]));
        assert(b.contains(a[0]));
        assert(b.len() > 0);
        assert(b.contains(b[0]));
        assert(a.contains(b[0]));
        // Each first element is the least of its sequence, and the sets agree.
        let ia = choose|i: int| 0 <= i < b.len() && b[i] == a[0];
        let ib = choose|i: int| 0 <= i < a.len() && a[i] == b[0];
        lemma_lex_trichotomy(a[0], b[0]);
        if lex_lt(a[0], b[0]) {
            // a[0] appears in b at ia, so b[0] <= b[ia] = a[0]: contradiction.
            if ia > 0 {
                assert(lex_lt(b[0], b[ia]));
                lemma_lex_lt_trans(a[0], b[0], b[ia]);
                lemma_lex_lt_irrefl(a[0]);
            } else {
                lemma_lex_lt_irrefl(a[0]);
            }
            assert(false);
        }
        if lex_lt(b[0], a[0]) {
            if ib > 0 {
                assert(lex_lt(a[0], a[ib]));
                lemma_lex_lt_trans(b[0], a[0], a[ib]);
                lemma_lex_lt_irrefl(b[0]);
            } else {
                lemma_lex_lt_irrefl(b[0]);
            }
            assert(false);
        }
        assert(a[0] == b[0]);
        let at = a.skip(1);
        let bt = b.skip(1);
        assert forall|x: Seq<u8>| at.contains(x) implies bt.contains(x) by {
            let k = choose|k: int| 0 <= k < at.len() && at[k] == x;
            assert(a[k + 1] == x);
            assert(lex_lt(a[0], x));
            assert(a.contains(x)) by {
                assert(a[k + 1] == x);
            }
            let m = choose|m: int| 0 <= m < b.len() && b[m] == x;
            lemma_lex_lt_irrefl(x);
            assert(m != 0);
            assert(bt[m - 1] == x);
        }
        assert forall|x: Seq<u8>| bt.contains(x) implies at.contains(x) by {
            let k = choose|k: int| 0 <= k < bt.len() && bt[k] == x;
            assert(b[k + 1] == x);
            assert(lex_lt(b[0], x));
            assert(b.contains(x)) by {
                assert(b[k + 1] == x);
            }
            let m = choose|m: int| 0 <= m < a.len() && a[m] == x;
            lemma_lex_lt_irrefl(x);
            assert(m != 0);
            assert(at[m - 1] == x);
        }
        lemma_sorted_strict_unique(at, bt);
        assert(a.len() == b.len());
        assert forall|i: int| 0 <= i < a.len() implies a[i] == b[i] by {
            if i >= 1 {
                assert(at[i - 1] == a[i]);
                assert(bt[i - 1] == b[i]);
            }
        }
        assert(a =~= b);
    }
}

} // verus!
