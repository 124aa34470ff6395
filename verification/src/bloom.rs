//! A bloom filter over 32-byte change hashes with a fixed false-positive
//! design point (ten bits and seven probes per entry, about one percent)
//! and a deterministic wire form. The probe scheme reads the first twelve
//! bytes of a hash as three little-endian 32-bit integers `h0, h1, h2`
//! and uses bit indices `(h0 + i*h1 + i*i*h2) mod m`; it is part of the
//! wire contract and is reproduced here bit for bit.

use vstd::prelude::*;

use crate::error::{MessageErrView, ReadMessageError};
use crate::hash::ChangeHash;
use crate::leb::{lemma_leb128_round_trip, read_leb128, spec_leb128, spec_read_leb128, write_leb128};

verus! {

/// Bits reserved per inserted entry.
pub const BITS_PER_ENTRY: u32 = 10;

/// Probes made per query.
pub const NUM_PROBES: u32 = 7;

/// The largest entry count whose bit count still fits in a `u32`.
pub const MAX_BLOOM_ENTRIES: usize = 429496729;

/// A probabilistic set of change hashes: `contains_hash` may answer true
/// for an absent hash, never false for a present one.
#[derive(Debug, Clone, PartialEq)]
pub struct BloomFilter {
    num_entries: u32,
    num_probes: u32,
    num_bits: u32,
    bits: Vec<u8>,
}

/// The mathematical image of a bloom filter.
pub ghost struct BloomView {
    pub n: nat,
    pub k: nat,
    pub m: nat,
    pub bits: Seq<u8>,
}

impl View for BloomFilter {
    type V = BloomView;

    closed spec fn view(&self) -> BloomView {
        BloomView {
            n: self.num_entries as nat,
            k: self.num_probes as nat,
            m: self.num_bits as nat,
            bits: self.bits@,
        }
    }
}

/// The structural soundness of a filter: counts fit the wire's 32-bit
/// range and the bit array holds exactly the declared bits.
pub open spec fn bloom_view_wf(b: BloomView) -> bool {
    &&& b.n <= u32::MAX
    &&& b.k <= u32::MAX
    &&& b.m <= u32::MAX
    &&& b.bits.len() == (b.m + 7) / 8
}

impl BloomFilter {
    pub open spec fn wf(&self) -> bool {
        bloom_view_wf(self@)
    }
}

/// One of the three 32-bit probe seeds, read little-endian from bytes
/// `4j..4j+4` of the hash.
pub open spec fn probe_seed(h: Seq<u8>, j: int) -> u32
    recommends
        h.len() == 32,
        0 <= j < 3,
{
    vstd::bytes::spec_u32_from_le_bytes(h.subrange(4 * j, 4 * j + 4))
}

/// The bit index probed on round `i`.
pub open spec fn spec_probe(h: Seq<u8>, i: int, m: nat) -> int
    recommends
        m > 0,
        0 <= i,
{
    (probe_seed(h, 0) + i * probe_seed(h, 1) + i * i * probe_seed(h, 2)) % (m as int)
}

/// Eight bits per byte cover the declared bit count.
pub proof fn lemma_bits_cover(m: nat)
    ensures
        8 * ((m + 7) / 8) >= m,
{
    vstd::arithmetic::div_mod::lemma_fundamental_div_mod((m + 7) as int, 8);
    vstd::arithmetic::div_mod::lemma_mod_bound((m + 7) as int, 8);
}

pub proof fn lemma_probe_in_range(h: Seq<u8>, i: int, m: nat)
    requires
        m > 0,
        0 <= i,
    ensures
        0 <= spec_probe(h, i, m) < m,
{
    let h1 = probe_seed(h, 1) as int;
    let h2 = probe_seed(h, 2) as int;
    assert(i * h1 >= 0) by (nonlinear_arith)
        requires
            i >= 0,
            h1 >= 0,
    ;
    assert(i * i * h2 >= 0) by (nonlinear_arith)
        requires
            i >= 0,
            h2 >= 0,
    ;
    let num = probe_seed(h, 0) + i * h1 + i * i * h2;
    assert(0 <= num % (m as int) < m as int) by (nonlinear_arith)
        requires
            num >= 0,
            m > 0,
    ;
}

/// Whether bit `idx` of the little-endian bit array is set.
pub open spec fn bit_set(bits: Seq<u8>, idx: int) -> bool
    recommends
        0 <= idx < 8 * bits.len(),
{
    (bits[idx / 8] >> (idx % 8) as u8) & 1 == 1
}

/// The bit array with bit `idx` set.
pub open spec fn with_bit(bits: Seq<u8>, idx: int) -> Seq<u8> {
    bits.update(idx / 8, bits[idx / 8] | (1u8 << (idx % 8) as u8))
}

proof fn lemma_byte_or_sets(x: u8, k: u8)
    by (bit_vector)
    requires
        k < 8,
    ensures
        ((x | (1u8 << k)) >> k) & 1 == 1,
{
}

proof fn lemma_byte_or_keeps(x: u8, k: u8, j: u8)
    by (bit_vector)
    requires
        k < 8,
        j < 8,
        (x >> j) & 1 == 1,
    ensures
        ((x | (1u8 << k)) >> j) & 1 == 1,
{
}

/// Setting one bit sets it and clears nothing.
pub proof fn lemma_with_bit(bits: Seq<u8>, idx: int, j: int)
    requires
        0 <= idx < 8 * bits.len(),
        0 <= j < 8 * bits.len(),
    ensures
        with_bit(bits, idx).len() == bits.len(),
        bit_set(with_bit(bits, idx), idx),
        bit_set(bits, j) ==> bit_set(with_bit(bits, idx), j),
{
    let bi = idx / 8;
    let k = (idx % 8) as u8;
    assert(0 <= bi < bits.len());
    lemma_byte_or_sets(bits[bi], k);
    if j / 8 == bi {
        if bit_set(bits, j) {
            lemma_byte_or_keeps(bits[bi], k, (j % 8) as u8);
        }
    } else {
        assert(0 <= j / 8 < bits.len());
        assert(with_bit(bits, idx)[j / 8] == bits[j / 8]);
    }
}

/// The bit array after the first `cnt` probes of `h` have been set.
pub open spec fn add_probes(bits: Seq<u8>, h: Seq<u8>, m: nat, cnt: nat) -> Seq<u8>
    decreases cnt,
{
    if cnt == 0 {
        bits
    } else {
        with_bit(add_probes(bits, h, m, (cnt - 1) as nat), spec_probe(h, cnt - 1, m))
    }
}

pub proof fn lemma_add_probes(bits: Seq<u8>, h: Seq<u8>, m: nat, cnt: nat)
    requires
        0 < m <= 8 * bits.len(),
    ensures
        add_probes(bits, h, m, cnt).len() == bits.len(),
        forall|i: int|
            0 <= i < cnt ==> bit_set(add_probes(bits, h, m, cnt), spec_probe(h, i, m)),
        forall|j: int|
            0 <= j < 8 * bits.len() && bit_set(bits, j) ==> bit_set(add_probes(bits, h, m, cnt), j),
    decreases cnt,
{
    if cnt > 0 {
        let prev = add_probes(bits, h, m, (cnt - 1) as nat);
        let idx = spec_probe(h, cnt - 1, m);
        lemma_add_probes(bits, h, m, (cnt - 1) as nat);
        lemma_probe_in_range(h, cnt - 1, m);
        assert forall|i: int|
            0 <= i < cnt implies bit_set(add_probes(bits, h, m, cnt), spec_probe(h, i, m)) by {
            lemma_probe_in_range(h, i, m);
            lemma_with_bit(prev, idx, spec_probe(h, i, m));
        }
        assert forall|j: int|
            0 <= j < 8 * bits.len() && bit_set(bits, j) implies bit_set(
            add_probes(bits, h, m, cnt),
            j,
        ) by {
            lemma_with_bit(prev, idx, j);
        }
    }
}

/// Whether the filter reports `h` as possibly present: every probed bit
/// is set. An empty filter reports nothing present.
pub open spec fn bloom_has(b: BloomView, h: Seq<u8>) -> bool {
    b.m > 0 && forall|i: int| 0 <= i < b.k ==> bit_set(b.bits, spec_probe(h, i, b.m))
}

/// The filter after inserting `h`; an empty filter cannot take insertions
/// and is left unchanged.
pub open spec fn spec_bloom_add(b: BloomView, h: Seq<u8>) -> BloomView {
    if b.m == 0 {
        b
    } else {
        BloomView { n: b.n, k: b.k, m: b.m, bits: add_probes(b.bits, h, b.m, b.k) }
    }
}

pub open spec fn zero_bytes(len: nat) -> Seq<u8> {
    Seq::new(len, |i: int| 0u8)
}

/// The freshly sized, all-zero filter for `count` entries.
pub open spec fn bloom_seed(count: nat) -> BloomView {
    BloomView {
        n: count,
        k: NUM_PROBES as nat,
        m: count * (BITS_PER_ENTRY as nat),
        bits: zero_bytes((count * (BITS_PER_ENTRY as nat) + 7) / 8),
    }
}

/// `b` with every hash of `hs` inserted, first first.
pub open spec fn add_all(b: BloomView, hs: Seq<Seq<u8>>) -> BloomView
    decreases hs.len(),
{
    if hs.len() == 0 {
        b
    } else {
        add_all(spec_bloom_add(b, hs[0]), hs.skip(1))
    }
}

/// The filter built over exactly the hashes of `hs`.
pub open spec fn spec_bloom_from(hs: Seq<Seq<u8>>) -> BloomView {
    if hs.len() == 0 {
        BloomView { n: 0, k: 0, m: 0, bits: Seq::empty() }
    } else {
        add_all(bloom_seed(hs.len()), hs)
    }
}

/// Inserting preserves shape and membership and makes `h` present.
pub proof fn lemma_bloom_add(b: BloomView, h: Seq<u8>)
    requires
        bloom_view_wf(b),
    ensures
        bloom_view_wf(spec_bloom_add(b, h)),
        spec_bloom_add(b, h).n == b.n,
        spec_bloom_add(b, h).k == b.k,
        spec_bloom_add(b, h).m == b.m,
        b.m > 0 ==> bloom_has(spec_bloom_add(b, h), h),
        forall|x: Seq<u8>| bloom_has(b, x) ==> bloom_has(spec_bloom_add(b, h), x),
{
    if b.m > 0 {
        lemma_bits_cover(b.m);
        lemma_add_probes(b.bits, h, b.m, b.k);
        assert forall|x: Seq<u8>| bloom_has(b, x) implies bloom_has(spec_bloom_add(b, h), x) by {
            assert forall|i: int| 0 <= i < b.k implies bit_set(
                spec_bloom_add(b, h).bits,
                spec_probe(x, i, b.m),
            ) by {
                lemma_probe_in_range(x, i, b.m);
            }
        }
    }
}

/// Inserting more hashes never loses membership.
pub proof fn lemma_add_all_keeps(b: BloomView, hs: Seq<Seq<u8>>, x: Seq<u8>)
    requires
        bloom_view_wf(b),
        bloom_has(b, x),
    ensures
        bloom_has(add_all(b, hs), x),
    decreases hs.len(),
{
    if hs.len() > 0 {
        lemma_bloom_add(b, hs[0]);
        lemma_add_all_keeps(spec_bloom_add(b, hs[0]), hs.skip(1), x);
    }
}

pub proof fn lemma_add_all_shape(b: BloomView, hs: Seq<Seq<u8>>)
    requires
        bloom_view_wf(b),
    ensures
        bloom_view_wf(add_all(b, hs)),
        add_all(b, hs).n == b.n,
        add_all(b, hs).k == b.k,
        add_all(b, hs).m == b.m,
    decreases hs.len(),
{
    if hs.len() > 0 {
        lemma_bloom_add(b, hs[0]);
        lemma_add_all_shape(spec_bloom_add(b, hs[0]), hs.skip(1));
    }
}

/// Every hash inserted into `b` is reported present afterwards.
pub proof fn lemma_add_all_sound(b: BloomView, hs: Seq<Seq<u8>>, i: int)
    requires
        bloom_view_wf(b),
        b.m > 0,
        0 <= i < hs.len(),
    ensures
        bloom_has(add_all(b, hs), hs[i]),
    decreases hs.len(),
{
    lemma_bloom_add(b, hs[0]);
    if i == 0 {
        lemma_add_all_keeps(spec_bloom_add(b, hs[0]), hs.skip(1), hs[0]);
    } else {
        lemma_add_all_sound(spec_bloom_add(b, hs[0]), hs.skip(1), i - 1);
        assert(hs.skip(1)[i - 1] == hs[i]);
    }
}

/// Bloom soundness: a filter built over `hs` reports every member of
/// `hs` present; false negatives cannot happen.
pub proof fn lemma_bloom_from_sound(hs: Seq<Seq<u8>>, i: int)
    requires
        0 <= i < hs.len(),
        hs.len() * BITS_PER_ENTRY <= u32::MAX,
    ensures
        bloom_has(spec_bloom_from(hs), hs[i]),
{
    lemma_bloom_seed_wf(hs.len());
    lemma_add_all_sound(bloom_seed(hs.len()), hs, i);
}

pub proof fn lemma_bloom_seed_wf(count: nat)
    requires
        count * BITS_PER_ENTRY <= u32::MAX,
        count > 0,
    ensures
        bloom_view_wf(bloom_seed(count)),
        bloom_seed(count).m > 0,
{
    assert(count * BITS_PER_ENTRY >= BITS_PER_ENTRY) by (nonlinear_arith)
        requires
            count >= 1,
    ;
}

impl BloomFilter {
    /// Reads bit `idx`.
    fn get_bit(&self, idx: u32) -> (r: bool)
        requires
            idx < 8 * self@.bits.len(),
        ensures
            r == bit_set(self@.bits, idx as int),
    {
        assert(0 <= idx as int / 8 < self.bits@.len());
        (self.bits[(idx / 8) as usize] >> (idx % 8) as u8) & 1 == 1
    }

    /// Sets bit `idx`.
    fn put_bit(&mut self, idx: u32)
        requires
            idx < 8 * old(self)@.bits.len(),
        ensures
            final(self)@.bits == with_bit(old(self)@.bits, idx as int),
            final(self).num_entries == old(self).num_entries,
            final(self).num_probes == old(self).num_probes,
            final(self).num_bits == old(self).num_bits,
    {
        assert(0 <= idx as int / 8 < self.bits@.len());
        let byte_index = (idx / 8) as usize;
        let value = self.bits[byte_index] | (1u8 << (idx % 8) as u8);
        self.bits.set(byte_index, value);
    }

    /// The bit index probed on round `i`; `m` is the filter's bit count.
    fn probe_index(hash: &ChangeHash, i: u32, m: u32) -> (r: u32)
        requires
            m > 0,
        ensures
            r == spec_probe(hash@, i as int, m as nat),
            r < m,
    {
        let whole = hash.0.as_slice();
        let s0 = vstd::bytes::u32_from_le_bytes(vstd::slice::slice_subrange(whole, 0, 4));
        let s1 = vstd::bytes::u32_from_le_bytes(vstd::slice::slice_subrange(whole, 4, 8));
        let s2 = vstd::bytes::u32_from_le_bytes(vstd::slice::slice_subrange(whole, 8, 12));
        proof {
            assert(s0 == probe_seed(hash@, 0));
            assert(s1 == probe_seed(hash@, 1));
            assert(s2 == probe_seed(hash@, 2));
        }
        proof {
            let ii = i as int;
            assert(0 <= ii * (s1 as int) <= 0xffff_ffff * 0xffff_ffff) by (nonlinear_arith)
                requires
                    0 <= ii <= 0xffff_ffffu64,
                    0 <= s1 as int <= 0xffff_ffffu64,
            ;
            assert(0 <= ii * ii <= 0xffff_ffff * 0xffff_ffff) by (nonlinear_arith)
                requires
                    0 <= ii <= 0xffff_ffffu64,
            ;
            assert(0 <= ii * ii * (s2 as int) <= 0xffff_ffff * 0xffff_ffff * 0xffff_ffff)
                by (nonlinear_arith)
                requires
                    0 <= ii <= 0xffff_ffffu64,
                    0 <= s2 as int <= 0xffff_ffffu64,
            ;
        }
        let wide: u128 = (s0 as u128) + (i as u128) * (s1 as u128) + (i as u128) * (i as u128) * (
        s2 as u128);
        proof {
            assert(0 <= wide as int % (m as int) < m as int) by (nonlinear_arith)
                requires
                    wide as int >= 0,
                    m > 0,
            ;
        }
        (wide % (m as u128)) as u32
    }

    /// Inserts a hash: its probed bits become set. Inserting into a
    /// zero-bit filter changes nothing.
    pub fn add_hash(&mut self, hash: &ChangeHash)
        requires
            old(self).wf(),
        ensures
            final(self).wf(),
            final(self)@ == spec_bloom_add(old(self)@, hash@),
    {
        if self.num_bits == 0 {
            return ;
        }
        proof {
            lemma_bits_cover(self@.m);
        }
        let ghost m = self@.m;
        let ghost bits0 = self@.bits;
        let mut i: u32 = 0;
        while i < self.num_probes
            invariant
                0 <= i <= self.num_probes,
                self.num_bits as nat == m,
                m > 0,
                m <= 8 * bits0.len(),
                self.bits@.len() == bits0.len(),
                self.bits@ == add_probes(bits0, hash@, m, i as nat),
                self.num_entries == old(self).num_entries,
                self.num_probes == old(self).num_probes,
                self.num_bits == old(self).num_bits,
            decreases self.num_probes - i,
        {
            proof {
                lemma_add_probes(bits0, hash@, m, i as nat);
                lemma_probe_in_range(hash@, i as int, m);
            }
            let idx = Self::probe_index(hash, i, self.num_bits);
            self.put_bit(idx);
            proof {
                lemma_add_probes(bits0, hash@, m, (i + 1) as nat);
            }
            i = i + 1;
        }
    }

    /// Whether the filter reports the hash as possibly present. False
    /// positives are possible; false negatives are not.
    pub fn contains_hash(&self, hash: &ChangeHash) -> (r: bool)
        requires
            self.wf(),
        ensures
            r == bloom_has(self@, hash@),
    {
        if self.num_bits == 0 {
            return false;
        }
        proof {
            lemma_bits_cover(self@.m);
        }
        let mut i: u32 = 0;
        while i < self.num_probes
            invariant
                self.wf(),
                self.num_bits > 0,
                self@.m <= 8 * self@.bits.len(),
                0 <= i <= self.num_probes,
                forall|p: int| 0 <= p < i ==> bit_set(self@.bits, spec_probe(hash@, p, self@.m)),
            decreases self.num_probes - i,
        {
            let idx = Self::probe_index(hash, i, self.num_bits);
            if !self.get_bit(idx) {
                return false;
            }
            i = i + 1;
        }
        true
    }

    /// Builds the filter over the given hashes, sized at `BITS_PER_ENTRY`
    /// bits and probed `NUM_PROBES` times per entry.
    pub fn from_hashes(hashes: &[ChangeHash]) -> (r: BloomFilter)
        requires
            hashes@.len() <= MAX_BLOOM_ENTRIES,
        ensures
            r.wf(),
            r@ == spec_bloom_from(hashes.deep_view()),
    {
        let ghost dv = hashes.deep_view();
        assert(dv.len() == hashes@.len());
        let n = hashes.len();
        if n == 0 {
            let r = BloomFilter {
                num_entries: 0,
                num_probes: 0,
                num_bits: 0,
                bits: Vec::new(),
            };
            assert(r@.bits =~= spec_bloom_from(dv).bits);
            return r;
        }
        let num_bits = (n as u32) * BITS_PER_ENTRY;
        let byte_len = (((num_bits as u64) + 7) / 8) as usize;
        let mut bits: Vec<u8> = Vec::new();
        let mut z: usize = 0;
        while z < byte_len
            invariant
                0 <= z <= byte_len,
                bits@.len() == z,
                forall|q: int| 0 <= q < z ==> bits@[q] == 0u8,
            decreases byte_len - z,
        {
            bits.push(0u8);
            z = z + 1;
        }
        let mut f = BloomFilter {
            num_entries: n as u32,
            num_probes: NUM_PROBES,
            num_bits,
            bits,
        };
        proof {
            assert(f@.bits =~= zero_bytes((dv.len() * (BITS_PER_ENTRY as nat) + 7) / 8));
            assert(f@ == bloom_seed(dv.len()));
            lemma_bloom_seed_wf(dv.len());
            assert(dv.skip(0) =~= dv);
        }
        let mut i: usize = 0;
        while i < n
            invariant
                0 <= i <= n,
                dv == hashes.deep_view(),
                n == dv.len(),
                n == hashes@.len(),
                f.wf(),
                add_all(f@, dv.skip(i as int)) == add_all(bloom_seed(dv.len()), dv),
            decreases n - i,
        {
            proof {
                assert(dv.skip(i as int)[0] == dv[i as int]);
                assert(dv.skip(i as int).skip(1) =~= dv.skip(i as int + 1));
                assert(dv[i as int] == hashes@[i as int]@);
            }
            let ghost pre = f@;
            f.add_hash(&hashes[i]);
            proof {
                assert(add_all(pre, dv.skip(i as int)) == add_all(
                    spec_bloom_add(pre, dv[i as int]),
                    dv.skip(i as int + 1),
                ));
            }
            i = i + 1;
        }
        proof {
            assert(dv.skip(n as int) =~= Seq::<Seq<u8>>::empty());
            assert(add_all(f@, dv.skip(n as int)) == f@);
        }
        f
    }
}

/// The wire form of a filter: entry count, probe count, bit count, each
/// LEB128, then the bit array. The empty filter is three zero bytes.
pub open spec fn spec_bloom_bytes(b: BloomView) -> Seq<u8> {
    spec_leb128(b.n) + spec_leb128(b.k) + spec_leb128(b.m) + b.bits
}

/// Parses a whole byte string as a filter. A count that cannot be read
/// is not enough input; a count above the 32-bit range, or a bit array
/// whose length disagrees with the declared bit count, is a malformed
/// bloom.
pub open spec fn spec_bloom_decode(s: Seq<u8>) -> Result<BloomView, MessageErrView> {
    match spec_read_leb128(s) {
        None => Err(MessageErrView::NotEnoughInput),
        Some((n, c1)) => if n > u64::MAX {
            Err(MessageErrView::NotEnoughInput)
        } else if n > u32::MAX {
            Err(MessageErrView::MalformedBloom)
        } else {
            let s1 = s.skip(c1 as int);
            match spec_read_leb128(s1) {
                None => Err(MessageErrView::NotEnoughInput),
                Some((k, c2)) => if k > u64::MAX {
                    Err(MessageErrView::NotEnoughInput)
                } else if k > u32::MAX {
                    Err(MessageErrView::MalformedBloom)
                } else {
                    let s2 = s1.skip(c2 as int);
                    match spec_read_leb128(s2) {
                        None => Err(MessageErrView::NotEnoughInput),
                        Some((m, c3)) => if m > u64::MAX {
                            Err(MessageErrView::NotEnoughInput)
                        } else if m > u32::MAX {
                            Err(MessageErrView::MalformedBloom)
                        } else {
                            let rest = s2.skip(c3 as int);
                            if rest.len() != (m + 7) / 8 {
                                Err(MessageErrView::MalformedBloom)
                            } else {
                                Ok(BloomView { n, k, m, bits: rest })
                            }
                        },
                    }
                },
            }
        },
    }
}

/// Decoding what was encoded gives the filter back.
pub proof fn lemma_bloom_round_trip(b: BloomView)
    requires
        bloom_view_wf(b),
    ensures
        spec_bloom_decode(spec_bloom_bytes(b)) == Ok::<BloomView, MessageErrView>(b),
{
    let s = spec_bloom_bytes(b);
    let ln = spec_leb128(b.n);
    let lk = spec_leb128(b.k);
    let lm = spec_leb128(b.m);
    lemma_leb128_round_trip(b.n, lk + lm + b.bits);
    assert(s =~= ln + (lk + lm + b.bits));
    let s1 = s.skip(ln.len() as int);
    assert(s1 =~= lk + (lm + b.bits));
    lemma_leb128_round_trip(b.k, lm + b.bits);
    let s2 = s1.skip(lk.len() as int);
    assert(s2 =~= lm + b.bits);
    lemma_leb128_round_trip(b.m, b.bits);
    let rest = s2.skip(lm.len() as int);
    assert(rest =~= b.bits);
}

impl Default for BloomFilter {
    /// The empty filter: no entries, no probes, no bits; it reports
    /// every hash absent.
    fn default() -> (r: Self)
        ensures
            r.wf(),
            r@ == (BloomView { n: 0, k: 0, m: 0, bits: Seq::<u8>::empty() }),
    {
        let r = BloomFilter { num_entries: 0, num_probes: 0, num_bits: 0, bits: Vec::new() };
        proof {
            assert(r@.bits =~= Seq::<u8>::empty());
        }
        r
    }
}

impl BloomFilter {
    /// Serializes the filter in its wire form.
    pub fn to_bytes(&self) -> (r: Vec<u8>)
        ensures
            r@ == spec_bloom_bytes(self@),
    {
        let mut buf: Vec<u8> = Vec::new();
        write_leb128(&mut buf, self.num_entries as u64);
        write_leb128(&mut buf, self.num_probes as u64);
        write_leb128(&mut buf, self.num_bits as u64);
        let ghost head = buf@;
        let mut i: usize = 0;
        while i < self.bits.len()
            invariant
                0 <= i <= self.bits@.len(),
                buf@ == head + self.bits@.subrange(0, i as int),
            decreases self.bits@.len() - i,
        {
            buf.push(self.bits[i]);
            proof {
                assert(buf@ =~= head + self.bits@.subrange(0, i + 1));
            }
            i = i + 1;
        }
        proof {
            assert(self.bits@.subrange(0, self.bits@.len() as int) =~= self.bits@);
            assert(buf@ =~= spec_bloom_bytes(self@));
        }
        buf
    }

    /// Parses a whole byte string as a filter.
    pub fn from_bytes(bytes: &[u8]) -> (r: Result<BloomFilter, ReadMessageError>)
        ensures
            match r {
                Ok(f) => {
                    &&& f.wf()
                    &&& spec_bloom_decode(bytes@) == Ok::<BloomView, MessageErrView>(f@)
                },
                Err(e) => spec_bloom_decode(bytes@) == Err::<BloomView, MessageErrView>(e@),
            },
    {
        proof {
            assert(bytes@.skip(0) =~= bytes@);
        }
        let (n, p1) = match read_leb128(bytes, 0) {
            None => {
                return Err(ReadMessageError::NotEnoughInput);
            },
            Some(v) => v,
        };
        if n > u32::MAX as u64 {
            return Err(ReadMessageError::MalformedBloom);
        }
        proof {
            assert(bytes@.skip(0).skip(p1 as int) =~= bytes@.skip(p1 as int));
        }
        let (k, p2) = match read_leb128(bytes, p1) {
            None => {
                return Err(ReadMessageError::NotEnoughInput);
            },
            Some(v) => v,
        };
        if k > u32::MAX as u64 {
            return Err(ReadMessageError::MalformedBloom);
        }
        proof {
            assert(bytes@.skip(p1 as int).skip((p2 - p1) as int) =~= bytes@.skip(p2 as int));
        }
        let (m, p3) = match read_leb128(bytes, p2) {
            None => {
                return Err(ReadMessageError::NotEnoughInput);
            },
            Some(v) => v,
        };
        if m > u32::MAX as u64 {
            return Err(ReadMessageError::MalformedBloom);
        }
        proof {
            assert(bytes@.skip(p2 as int).skip((p3 - p2) as int) =~= bytes@.skip(p3 as int));
        }
        let remaining = bytes.len() - p3;
        if (remaining as u64) != (m + 7) / 8 {
            return Err(ReadMessageError::MalformedBloom);
        }
        let mut bits: Vec<u8> = Vec::new();
        let mut p = p3;
        while p < bytes.len()
            invariant
                p3 <= p <= bytes@.len(),
                bits@ == bytes@.subrange(p3 as int, p as int),
            decreases bytes@.len() - p,
        {
            bits.push(bytes[p]);
            proof {
                assert(bits@ =~= bytes@.subrange(p3 as int, p + 1));
            }
            p = p + 1;
        }
        proof {
            assert(bits@ =~= bytes@.skip(p3 as int));
        }
        Ok(
            BloomFilter {
                num_entries: n as u32,
                num_probes: k as u32,
                num_bits: m as u32,
                bits,
            },
        )
    }
}

} // verus!
