//! The wire codec: a sync message framed as a versioned type byte,
//! LEB128 counts, 32-byte hashes, and length-prefixed bloom and change
//! bodies. The byte-level grammar is written out as specification
//! functions; the executable encoder and decoder are proved to follow
//! them exactly, and decoding an encoding gives the message back.

use vstd::prelude::*;

use crate::bloom::{bloom_view_wf, spec_bloom_bytes, spec_bloom_decode, BloomFilter, BloomView};
use crate::change::{Change, ChangeView};
use crate::error::{MessageErrView, ReadMessageError};
use crate::hash::{lex_sorted, ChangeHash};
use crate::leb::{lemma_leb128_round_trip, read_leb128, spec_leb128, spec_read_leb128, write_leb128};
use crate::state::{have_wf, Have, HaveView};

verus! {

/// First byte of every sync message.
pub const MESSAGE_TYPE_SYNC: u8 = 0x42;

/// The sync message: the sender's heads, its explicit requests, its
/// summaries of what it already has, and full changes for the receiver
/// to apply. All hash vectors are sorted ascending on the wire.
#[derive(Debug, Clone, PartialEq)]
pub struct Message {
    /// The heads of the sender.
    pub heads: Vec<ChangeHash>,
    /// Hashes the sender explicitly requests from the recipient.
    pub need: Vec<ChangeHash>,
    /// Summaries of the changes the sender already has.
    pub have: Vec<Have>,
    /// Changes for the recipient to apply.
    pub changes: Vec<Change>,
}

/// The mathematical image of a message.
pub ghost struct MessageView {
    pub heads: Seq<Seq<u8>>,
    pub need: Seq<Seq<u8>>,
    pub have: Seq<HaveView>,
    pub changes: Seq<ChangeView>,
}

impl View for Message {
    type V = MessageView;

    open spec fn view(&self) -> MessageView {
        MessageView {
            heads: self.heads.deep_view(),
            need: self.need.deep_view(),
            have: self.have.deep_view(),
            changes: self.changes.deep_view(),
        }
    }
}

/// What the generator promises of every message it emits, and what the
/// encoder insists on: sorted hash vectors and well-shaped blooms.
pub open spec fn message_wf(m: MessageView) -> bool {
    &&& lex_sorted(m.heads)
    &&& lex_sorted(m.need)
    &&& forall|i: int| 0 <= i < m.have.len() ==> have_wf(#[trigger] m.have[i])
}

// ---------------------------------------------------------------------
// The byte-level grammar, encoding side.
// ---------------------------------------------------------------------
/// The hash values laid end to end.
pub open spec fn spec_cat(hs: Seq<Seq<u8>>) -> Seq<u8>
    decreases hs.len(),
{
    if hs.len() == 0 {
        Seq::empty()
    } else {
        hs[0] + spec_cat(hs.skip(1))
    }
}

/// A hash vector: its count, then the hashes.
pub open spec fn spec_enc_hashes(hs: Seq<Seq<u8>>) -> Seq<u8> {
    spec_leb128(hs.len()) + spec_cat(hs)
}

/// A length-prefixed byte body.
pub open spec fn spec_lp(b: Seq<u8>) -> Seq<u8> {
    spec_leb128(b.len()) + b
}

/// A change's raw bytes: its hash, its dependency hashes as a hash
/// vector, then its payload to the end.
pub open spec fn spec_change_bytes(c: ChangeView) -> Seq<u8> {
    c.hash + spec_leb128(c.deps.len()) + spec_cat(c.deps) + c.payload
}

/// A have summary: its heads as a hash vector, then its bloom,
/// length-prefixed.
pub open spec fn spec_enc_have(h: HaveView) -> Seq<u8> {
    spec_enc_hashes(h.last_sync) + spec_lp(spec_bloom_bytes(h.bloom))
}

pub open spec fn spec_enc_haves(hs: Seq<HaveView>) -> Seq<u8>
    decreases hs.len(),
{
    if hs.len() == 0 {
        Seq::empty()
    } else {
        spec_enc_have(hs[0]) + spec_enc_haves(hs.skip(1))
    }
}

pub open spec fn spec_enc_changes(cs: Seq<ChangeView>) -> Seq<u8>
    decreases cs.len(),
{
    if cs.len() == 0 {
        Seq::empty()
    } else {
        spec_lp(spec_change_bytes(cs[0])) + spec_enc_changes(cs.skip(1))
    }
}

/// The whole message on the wire.
pub open spec fn spec_msg_bytes(m: MessageView) -> Seq<u8> {
    seq![MESSAGE_TYPE_SYNC] + spec_enc_hashes(m.heads) + spec_enc_hashes(m.need) + spec_leb128(
        m.have.len(),
    ) + spec_enc_haves(m.have) + spec_leb128(m.changes.len()) + spec_enc_changes(m.changes)
}

// ---------------------------------------------------------------------
// The byte-level grammar, decoding side. Each reader takes the input
// suffix still to be read and returns what it read and the rest.
// ---------------------------------------------------------------------
/// A count: readable LEB128 that fits a `u64`; anything else is not
/// enough input.
pub open spec fn spec_read_count(s: Seq<u8>) -> Result<(nat, Seq<u8>), MessageErrView> {
    match spec_read_leb128(s) {
        None => Err(MessageErrView::NotEnoughInput),
        Some((v, c)) => if v > u64::MAX {
            Err(MessageErrView::NotEnoughInput)
        } else {
            Ok((v, s.skip(c as int)))
        },
    }
}

/// `count` hashes of 32 bytes each.
pub open spec fn spec_read_hash_list(s: Seq<u8>, count: nat) -> Result<
    (Seq<Seq<u8>>, Seq<u8>),
    MessageErrView,
>
    decreases count,
{
    if count == 0 {
        Ok((Seq::empty(), s))
    } else if s.len() < 32 {
        Err(MessageErrView::NotEnoughInput)
    } else {
        match spec_read_hash_list(s.skip(32), (count - 1) as nat) {
            Err(e) => Err(e),
            Ok((hs, rest)) => Ok((seq![s.subrange(0, 32)] + hs, rest)),
        }
    }
}

/// A counted hash vector.
pub open spec fn spec_read_hash_vec(s: Seq<u8>) -> Result<(Seq<Seq<u8>>, Seq<u8>), MessageErrView> {
    match spec_read_count(s) {
        Err(e) => Err(e),
        Ok((n, s1)) => spec_read_hash_list(s1, n),
    }
}

/// A length-prefixed byte body.
pub open spec fn spec_read_blob(s: Seq<u8>) -> Result<(Seq<u8>, Seq<u8>), MessageErrView> {
    match spec_read_count(s) {
        Err(e) => Err(e),
        Ok((n, s1)) => if s1.len() < n {
            Err(MessageErrView::NotEnoughInput)
        } else {
            Ok((s1.take(n as int), s1.skip(n as int)))
        },
    }
}

/// A whole change blob: hash, dependency vector, payload to the end.
/// A blob that ends early is a malformed change.
pub open spec fn spec_change_decode(s: Seq<u8>) -> Result<ChangeView, MessageErrView> {
    if s.len() < 32 {
        Err(MessageErrView::MalformedChange)
    } else {
        let hash = s.subrange(0, 32);
        match spec_read_count(s.skip(32)) {
            Err(_) => Err(MessageErrView::MalformedChange),
            Ok((n, s1)) => match spec_read_hash_list(s1, n) {
                Err(_) => Err(MessageErrView::MalformedChange),
                Ok((deps, rest)) => Ok(ChangeView { hash, deps, payload: rest }),
            },
        }
    }
}

/// One have summary.
pub open spec fn spec_read_have(s: Seq<u8>) -> Result<(HaveView, Seq<u8>), MessageErrView> {
    match spec_read_hash_vec(s) {
        Err(e) => Err(e),
        Ok((ls, s1)) => match spec_read_blob(s1) {
            Err(e) => Err(e),
            Ok((bb, s2)) => match spec_bloom_decode(bb) {
                Err(e) => Err(e),
                Ok(bv) => Ok((HaveView { last_sync: ls, bloom: bv }, s2)),
            },
        },
    }
}

pub open spec fn spec_read_haves(s: Seq<u8>, count: nat) -> Result<
    (Seq<HaveView>, Seq<u8>),
    MessageErrView,
>
    decreases count,
{
    if count == 0 {
        Ok((Seq::empty(), s))
    } else {
        match spec_read_have(s) {
            Err(e) => Err(e),
            Ok((h, s1)) => match spec_read_haves(s1, (count - 1) as nat) {
                Err(e) => Err(e),
                Ok((hs, rest)) => Ok((seq![h] + hs, rest)),
            },
        }
    }
}

pub open spec fn spec_read_changes(s: Seq<u8>, count: nat) -> Result<
    (Seq<ChangeView>, Seq<u8>),
    MessageErrView,
>
    decreases count,
{
    if count == 0 {
        Ok((Seq::empty(), s))
    } else {
        match spec_read_blob(s) {
            Err(e) => Err(e),
            Ok((bb, s1)) => match spec_change_decode(bb) {
                Err(e) => Err(e),
                Ok(c) => match spec_read_changes(s1, (count - 1) as nat) {
                    Err(e) => Err(e),
                    Ok((cs, rest)) => Ok((seq![c] + cs, rest)),
                },
            },
        }
    }
}

/// The whole message. A first byte other than the sync discriminator
/// is a wrong type; bytes after the last change are ignored.
pub open spec fn spec_msg_decode(s: Seq<u8>) -> Result<MessageView, MessageErrView> {
    if s.len() == 0 {
        Err(MessageErrView::NotEnoughInput)
    } else if s[0] != MESSAGE_TYPE_SYNC {
        Err(
            MessageErrView::WrongType {
                expected_one_of: seq![MESSAGE_TYPE_SYNC],
                found: s[0],
            },
        )
    } else {
        match spec_read_hash_vec(s.skip(1)) {
            Err(e) => Err(e),
            Ok((heads, s1)) => match spec_read_hash_vec(s1) {
                Err(e) => Err(e),
                Ok((need, s2)) => match spec_read_count(s2) {
                    Err(e) => Err(e),
                    Ok((hc, s3)) => match spec_read_haves(s3, hc) {
                        Err(e) => Err(e),
                        Ok((have, s4)) => match spec_read_count(s4) {
                            Err(e) => Err(e),
                            Ok((cc, s5)) => match spec_read_changes(s5, cc) {
                                Err(e) => Err(e),
                                Ok((changes, _)) => Ok(
                                    MessageView { heads, need, have, changes },
                                ),
                            },
                        },
                    },
                },
            },
        }
    }
}

// ---------------------------------------------------------------------
// Concatenation lemmas used by the encoder's loops.
// ---------------------------------------------------------------------
pub proof fn lemma_cat_snoc(hs: Seq<Seq<u8>>, i: int)
    requires
        0 <= i < hs.len(),
    ensures
        spec_cat(hs.take(i + 1)) == spec_cat(hs.take(i)) + hs[i],
    decreases i,
{
    let a = hs.take(i + 1);
    let b = hs.take(i);
    if i == 0 {
        assert(a =~= seq![hs[0]]);
        assert(spec_cat(a.skip(1)) == Seq::<u8>::empty()) by {
            assert(a.skip(1) =~= Seq::<Seq<u8>>::empty());
        }
        assert(spec_cat(a) =~= hs[0]);
        assert(spec_cat(b) == Seq::<u8>::empty()) by {
            assert(b =~= Seq::<Seq<u8>>::empty());
        }
        assert(spec_cat(b) + hs[0] =~= hs[0]);
    } else {
        lemma_cat_snoc(hs.skip(1), i - 1);
        assert(a.skip(1) =~= hs.skip(1).take(i));
        assert(b.skip(1) =~= hs.skip(1).take(i - 1));
        assert(hs.skip(1)[i - 1] == hs[i]);
        assert(spec_cat(a) == a[0] + spec_cat(hs.skip(1).take(i)));
        assert(spec_cat(b) == b[0] + spec_cat(hs.skip(1).take(i - 1)));
        assert(spec_cat(a) =~= spec_cat(b) + hs[i]);
    }
}

pub proof fn lemma_enc_haves_snoc(hs: Seq<HaveView>, i: int)
    requires
        0 <= i < hs.len(),
    ensures
        spec_enc_haves(hs.take(i + 1)) == spec_enc_haves(hs.take(i)) + spec_enc_have(hs[i]),
    decreases i,
{
    let a = hs.take(i + 1);
    let b = hs.take(i);
    if i == 0 {
        assert(a.skip(1) =~= Seq::<HaveView>::empty());
        assert(b =~= Seq::<HaveView>::empty());
        assert(spec_enc_haves(a.skip(1)) == Seq::<u8>::empty());
        assert(spec_enc_haves(a) =~= spec_enc_have(hs[0]));
        assert(spec_enc_haves(b) + spec_enc_have(hs[0]) =~= spec_enc_have(hs[0]));
    } else {
        lemma_enc_haves_snoc(hs.skip(1), i - 1);
        assert(a.skip(1) =~= hs.skip(1).take(i));
        assert(b.skip(1) =~= hs.skip(1).take(i - 1));
        assert(hs.skip(1)[i - 1] == hs[i]);
        assert(spec_enc_haves(a) =~= spec_enc_haves(b) + spec_enc_have(hs[i]));
    }
}

pub proof fn lemma_enc_changes_snoc(cs: Seq<ChangeView>, i: int)
    requires
        0 <= i < cs.len(),
    ensures
        spec_enc_changes(cs.take(i + 1)) == spec_enc_changes(cs.take(i)) + spec_lp(
            spec_change_bytes(cs[i]),
        ),
    decreases i,
{
    let a = cs.take(i + 1);
    let b = cs.take(i);
    if i == 0 {
        assert(a.skip(1) =~= Seq::<ChangeView>::empty());
        assert(b =~= Seq::<ChangeView>::empty());
        assert(spec_enc_changes(a.skip(1)) == Seq::<u8>::empty());
        assert(spec_enc_changes(a) =~= spec_lp(spec_change_bytes(cs[0])));
        assert(spec_enc_changes(b) + spec_lp(spec_change_bytes(cs[0])) =~= spec_lp(
            spec_change_bytes(cs[0]),
        ));
    } else {
        lemma_enc_changes_snoc(cs.skip(1), i - 1);
        assert(a.skip(1) =~= cs.skip(1).take(i));
        assert(b.skip(1) =~= cs.skip(1).take(i - 1));
        assert(cs.skip(1)[i - 1] == cs[i]);
        assert(spec_enc_changes(a) =~= spec_enc_changes(b) + spec_lp(spec_change_bytes(cs[i])));
    }
}

// ---------------------------------------------------------------------
// Executable writers.
// ---------------------------------------------------------------------
/// Appends the 32 bytes of one hash.
fn write_hash(buf: &mut Vec<u8>, h: &ChangeHash)
    ensures
        final(buf)@ == old(buf)@ + h@,
{
    let mut j: usize = 0;
    while j < 32
        invariant
            0 <= j <= 32,
            buf@ == old(buf)@ + h@.subrange(0, j as int),
        decreases 32 - j,
    {
        buf.push(h.0[j]);
        proof {
            assert(buf@ =~= old(buf)@ + h@.subrange(0, j + 1));
        }
        j = j + 1;
    }
    proof {
        assert(h@.subrange(0, 32) =~= h@);
    }
}

/// Appends a byte string.
fn write_bytes(buf: &mut Vec<u8>, src: &Vec<u8>)
    ensures
        final(buf)@ == old(buf)@ + src@,
{
    let mut j: usize = 0;
    while j < src.len()
        invariant
            0 <= j <= src@.len(),
            buf@ == old(buf)@ + src@.subrange(0, j as int),
        decreases src@.len() - j,
    {
        buf.push(src[j]);
        proof {
            assert(buf@ =~= old(buf)@ + src@.subrange(0, j + 1));
        }
        j = j + 1;
    }
    proof {
        assert(src@.subrange(0, src@.len() as int) =~= src@);
    }
}

/// Appends a counted hash vector.
fn write_hashes(buf: &mut Vec<u8>, hashes: &Vec<ChangeHash>)
    ensures
        final(buf)@ == old(buf)@ + spec_enc_hashes(hashes.deep_view()),
{
    let ghost dv = hashes.deep_view();
    write_leb128(buf, hashes.len() as u64);
    let ghost base = buf@;
    assert(base == old(buf)@ + spec_leb128(dv.len()));
    let mut i: usize = 0;
    while i < hashes.len()
        invariant
            0 <= i <= hashes@.len(),
            dv == hashes.deep_view(),
            dv.len() == hashes@.len(),
            buf@ == base + spec_cat(dv.take(i as int)),
        decreases hashes@.len() - i,
    {
        write_hash(buf, &hashes[i]);
        proof {
            lemma_cat_snoc(dv, i as int);
            assert(dv[i as int] == hashes@[i as int]@);
        }
        i = i + 1;
    }
    proof {
        assert(dv.take(dv.len() as int) =~= dv);
    }
}

impl Change {
    /// The change's raw wire bytes: hash, dependency vector, payload.
    pub fn raw_bytes(&self) -> (r: Vec<u8>)
        ensures
            r@ == spec_change_bytes(self@),
    {
        let mut buf: Vec<u8> = Vec::new();
        proof {
            assert(buf@ + self.hash@ =~= self.hash@);
        }
        write_hash(&mut buf, &self.hash);
        write_leb128(&mut buf, self.deps.len() as u64);
        let ghost base = buf@;
        let ghost dv = self.deps.deep_view();
        let mut i: usize = 0;
        while i < self.deps.len()
            invariant
                0 <= i <= self.deps@.len(),
                dv == self.deps.deep_view(),
                dv.len() == self.deps@.len(),
                buf@ == base + spec_cat(dv.take(i as int)),
            decreases self.deps@.len() - i,
        {
            write_hash(&mut buf, &self.deps[i]);
            proof {
                lemma_cat_snoc(dv, i as int);
                assert(dv[i as int] == self.deps@[i as int]@);
            }
            i = i + 1;
        }
        proof {
            assert(dv.take(dv.len() as int) =~= dv);
        }
        write_bytes(&mut buf, &self.payload);
        proof {
            assert(buf@ =~= spec_change_bytes(self@));
        }
        buf
    }
}

impl Message {
    /// Serializes the message in its wire form. Every hash vector must
    /// be sorted: unsorted vectors never leave a correct generator.
    pub fn encode(self) -> (r: Vec<u8>)
        requires
            message_wf(self@),
        ensures
            r@ == spec_msg_bytes(self@),
    {
        let mut buf: Vec<u8> = Vec::new();
        buf.push(MESSAGE_TYPE_SYNC);
        proof {
            assert(buf@ =~= seq![MESSAGE_TYPE_SYNC]);
        }
        write_hashes(&mut buf, &self.heads);
        write_hashes(&mut buf, &self.need);
        write_leb128(&mut buf, self.have.len() as u64);
        let ghost base = buf@;
        let ghost hv = self.have.deep_view();
        let mut i: usize = 0;
        while i < self.have.len()
            invariant
                0 <= i <= self.have@.len(),
                hv == self.have.deep_view(),
                hv.len() == self.have@.len(),
                buf@ == base + spec_enc_haves(hv.take(i as int)),
            decreases self.have@.len() - i,
        {
            write_hashes(&mut buf, &self.have[i].last_sync);
            let bb = self.have[i].bloom.to_bytes();
            write_leb128(&mut buf, bb.len() as u64);
            write_bytes(&mut buf, &bb);
            proof {
                lemma_enc_haves_snoc(hv, i as int);
                assert(hv[i as int] == self.have@[i as int]@);
                assert(buf@ =~= base + spec_enc_haves(hv.take(i as int)) + spec_enc_have(
                    hv[i as int],
                ));
            }
            i = i + 1;
        }
        proof {
            assert(hv.take(hv.len() as int) =~= hv);
        }
        write_leb128(&mut buf, self.changes.len() as u64);
        let ghost base2 = buf@;
        let ghost cv = self.changes.deep_view();
        let mut j: usize = 0;
        while j < self.changes.len()
            invariant
                0 <= j <= self.changes@.len(),
                cv == self.changes.deep_view(),
                cv.len() == self.changes@.len(),
                buf@ == base2 + spec_enc_changes(cv.take(j as int)),
            decreases self.changes@.len() - j,
        {
            let cb = self.changes[j].raw_bytes();
            write_leb128(&mut buf, cb.len() as u64);
            write_bytes(&mut buf, &cb);
            proof {
                lemma_enc_changes_snoc(cv, j as int);
                assert(cv[j as int] == self.changes@[j as int]@);
                assert(buf@ =~= base2 + spec_enc_changes(cv.take(j as int)) + spec_lp(
                    spec_change_bytes(cv[j as int]),
                ));
            }
            j = j + 1;
        }
        proof {
            assert(cv.take(cv.len() as int) =~= cv);
            assert(buf@ =~= spec_msg_bytes(self@));
        }
        buf
    }
}

// ---------------------------------------------------------------------
// Executable readers. Each one is proved to return exactly what the
// grammar's reader returns on the same suffix.
// ---------------------------------------------------------------------
/// Reads one count at `pos`.
fn read_count(bytes: &[u8], pos: usize) -> (r: Result<(u64, usize), ReadMessageError>)
    requires
        pos <= bytes@.len(),
    ensures
        match r {
            Ok(p) => {
                &&& spec_read_count(bytes@.skip(pos as int)) == Ok::<(nat, Seq<u8>), MessageErrView>(
                    (p.0 as nat, bytes@.skip(p.1 as int)),
                )
                &&& pos < p.1 <= bytes@.len()
            },
            Err(e) => spec_read_count(bytes@.skip(pos as int)) == Err::<
                (nat, Seq<u8>),
                MessageErrView,
            >(e@),
        },
{
    match read_leb128(bytes, pos) {
        None => Err(ReadMessageError::NotEnoughInput),
        Some((v, np)) => {
            proof {
                assert(bytes@.skip(pos as int).skip((np - pos) as int) =~= bytes@.skip(np as int));
            }
            Ok((v, np))
        },
    }
}

/// Reads `count` hashes of 32 bytes each starting at `pos`.
#[verifier::loop_isolation(false)]
fn read_hash_list(bytes: &[u8], pos: usize, count: u64) -> (r: Result<
    (Vec<ChangeHash>, usize),
    ReadMessageError,
>)
    requires
        pos <= bytes@.len(),
    ensures
        match r {
            Ok(p) => {
                &&& spec_read_hash_list(bytes@.skip(pos as int), count as nat) == Ok::<
                    (Seq<Seq<u8>>, Seq<u8>),
                    MessageErrView,
                >((p.0.deep_view(), bytes@.skip(p.1 as int)))
                &&& pos <= p.1 <= bytes@.len()
                &&& p.0.deep_view().len() == count
            },
            Err(e) => spec_read_hash_list(bytes@.skip(pos as int), count as nat) == Err::<
                (Seq<Seq<u8>>, Seq<u8>),
                MessageErrView,
            >(e@),
        },
{
    let mut out: Vec<ChangeHash> = Vec::new();
    let mut p = pos;
    let mut k: u64 = 0;
    proof {
        assert(out.deep_view() =~= Seq::<Seq<u8>>::empty());
    }
    while k < count
        invariant
            pos <= p <= bytes@.len(),
            0 <= k <= count,
            out.deep_view().len() == k,
            match spec_read_hash_list(bytes@.skip(p as int), (count - k) as nat) {
                Ok(rr) => spec_read_hash_list(bytes@.skip(pos as int), count as nat) == Ok::<
                    (Seq<Seq<u8>>, Seq<u8>),
                    MessageErrView,
                >((out.deep_view() + rr.0, rr.1)),
                Err(e) => spec_read_hash_list(bytes@.skip(pos as int), count as nat) == Err::<
                    (Seq<Seq<u8>>, Seq<u8>),
                    MessageErrView,
                >(e),
            },
        decreases count - k,
    {
        let ghost s_cur = bytes@.skip(p as int);
        let ghost rem = (count - k) as nat;
        if bytes.len() - p < 32 {
            assert(s_cur.len() < 32);
            return Err(ReadMessageError::NotEnoughInput);
        }
        let mut arr = [0u8; 32];
        let mut j: usize = 0;
        while j < 32
            invariant
                0 <= j <= 32,
                p + 32 <= bytes@.len(),
                forall|q: int| 0 <= q < j ==> arr@[q] == bytes@[p + q],
            decreases 32 - j,
        {
            arr[j] = bytes[p + j];
            j = j + 1;
        }
        let ghost out_pre = out.deep_view();
        out.push(ChangeHash(arr));
        proof {
            assert(arr@ =~= s_cur.subrange(0, 32));
            assert(s_cur.skip(32) =~= bytes@.skip(p + 32));
            assert(out.deep_view() =~= out_pre.push(arr@));
            match spec_read_hash_list(bytes@.skip(p + 32), (rem - 1) as nat) {
                Ok(rr) => {
                    assert(spec_read_hash_list(s_cur, rem) == Ok::<
                        (Seq<Seq<u8>>, Seq<u8>),
                        MessageErrView,
                    >((seq![s_cur.subrange(0, 32)] + rr.0, rr.1)));
                    assert(out_pre + (seq![s_cur.subrange(0, 32)] + rr.0) =~= out.deep_view()
                        + rr.0);
                },
                Err(_) => {},
            }
        }
        p = p + 32;
        k = k + 1;
    }
    proof {
        assert(spec_read_hash_list(bytes@.skip(p as int), 0) == Ok::<
            (Seq<Seq<u8>>, Seq<u8>),
            MessageErrView,
        >((Seq::empty(), bytes@.skip(p as int))));
        assert(out.deep_view() + Seq::<Seq<u8>>::empty() =~= out.deep_view());
    }
    Ok((out, p))
}

/// Reads a counted hash vector at `pos`.
fn read_hash_vec(bytes: &[u8], pos: usize) -> (r: Result<
    (Vec<ChangeHash>, usize),
    ReadMessageError,
>)
    requires
        pos <= bytes@.len(),
    ensures
        match r {
            Ok(p) => {
                &&& spec_read_hash_vec(bytes@.skip(pos as int)) == Ok::<
                    (Seq<Seq<u8>>, Seq<u8>),
                    MessageErrView,
                >((p.0.deep_view(), bytes@.skip(p.1 as int)))
                &&& pos <= p.1 <= bytes@.len()
            },
            Err(e) => spec_read_hash_vec(bytes@.skip(pos as int)) == Err::<
                (Seq<Seq<u8>>, Seq<u8>),
                MessageErrView,
            >(e@),
        },
{
    match read_count(bytes, pos) {
        Err(e) => Err(e),
        Ok((n, p1)) => read_hash_list(bytes, p1, n),
    }
}

impl Change {
    /// Parses a whole blob as one change; the payload runs to the end
    /// of the blob.
    pub fn from_bytes(bytes: &[u8]) -> (r: Result<Change, ReadMessageError>)
        ensures
            match r {
                Ok(c) => spec_change_decode(bytes@) == Ok::<ChangeView, MessageErrView>(c@),
                Err(e) => spec_change_decode(bytes@) == Err::<ChangeView, MessageErrView>(e@),
            },
    {
        if bytes.len() < 32 {
            return Err(ReadMessageError::MalformedChange);
        }
        let mut arr = [0u8; 32];
        let mut j: usize = 0;
        while j < 32
            invariant
                0 <= j <= 32,
                32 <= bytes@.len(),
                forall|q: int| 0 <= q < j ==> arr@[q] == bytes@[q],
            decreases 32 - j,
        {
            arr[j] = bytes[j];
            j = j + 1;
        }
        proof {
            assert(arr@ =~= bytes@.subrange(0, 32));
        }
        let (n, p1) = match read_count(bytes, 32) {
            Err(_) => {
                return Err(ReadMessageError::MalformedChange);
            },
            Ok(v) => v,
        };
        let (deps, p2) = match read_hash_list(bytes, p1, n) {
            Err(_) => {
                return Err(ReadMessageError::MalformedChange);
            },
            Ok(v) => v,
        };
        let mut payload: Vec<u8> = Vec::new();
        let mut p = p2;
        while p < bytes.len()
            invariant
                p2 <= p <= bytes@.len(),
                payload@ == bytes@.subrange(p2 as int, p as int),
            decreases bytes@.len() - p,
        {
            payload.push(bytes[p]);
            proof {
                assert(payload@ =~= bytes@.subrange(p2 as int, p + 1));
            }
            p = p + 1;
        }
        proof {
            assert(payload@ =~= bytes@.skip(p2 as int));
        }
        Ok(Change { hash: ChangeHash(arr), deps, payload })
    }
}

/// Reads `count` have summaries starting at `pos`.
#[verifier::loop_isolation(false)]
fn read_haves(bytes: &[u8], pos: usize, count: u64) -> (r: Result<
    (Vec<Have>, usize),
    ReadMessageError,
>)
    requires
        pos <= bytes@.len(),
    ensures
        match r {
            Ok(p) => {
                &&& spec_read_haves(bytes@.skip(pos as int), count as nat) == Ok::<
                    (Seq<HaveView>, Seq<u8>),
                    MessageErrView,
                >((p.0.deep_view(), bytes@.skip(p.1 as int)))
                &&& pos <= p.1 <= bytes@.len()
                &&& forall|i: int|
                    0 <= i < p.0.deep_view().len() ==> bloom_view_wf(
                        #[trigger] p.0.deep_view()[i].bloom,
                    )
            },
            Err(e) => spec_read_haves(bytes@.skip(pos as int), count as nat) == Err::<
                (Seq<HaveView>, Seq<u8>),
                MessageErrView,
            >(e@),
        },
{
    let mut have: Vec<Have> = Vec::new();
    let mut p = pos;
    let mut k: u64 = 0;
    proof {
        assert(have.deep_view() =~= Seq::<HaveView>::empty());
    }
    while k < count
        invariant
            pos <= p <= bytes@.len(),
            0 <= k <= count,
            have.deep_view().len() == k,
            forall|i: int|
                0 <= i < have.deep_view().len() ==> bloom_view_wf(
                    #[trigger] have.deep_view()[i].bloom,
                ),
            match spec_read_haves(bytes@.skip(p as int), (count - k) as nat) {
                Ok(rr) => spec_read_haves(bytes@.skip(pos as int), count as nat) == Ok::<
                    (Seq<HaveView>, Seq<u8>),
                    MessageErrView,
                >((have.deep_view() + rr.0, rr.1)),
                Err(e) => spec_read_haves(bytes@.skip(pos as int), count as nat) == Err::<
                    (Seq<HaveView>, Seq<u8>),
                    MessageErrView,
                >(e),
            },
        decreases count - k,
    {
        let ghost s_cur = bytes@.skip(p as int);
        let ghost rem = (count - k) as nat;
        let (ls, q1) = match read_hash_vec(bytes, p) {
            Err(e) => {
                return Err(e);
            },
            Ok(v) => v,
        };
        let (bn, q2) = match read_count(bytes, q1) {
            Err(e) => {
                return Err(e);
            },
            Ok(v) => v,
        };
        if ((bytes.len() - q2) as u64) < bn {
            return Err(ReadMessageError::NotEnoughInput);
        }
        let q3 = q2 + (bn as usize);
        let bloom_slice = vstd::slice::slice_subrange(bytes, q2, q3);
        proof {
            assert(bloom_slice@ =~= bytes@.skip(q2 as int).take(bn as int));
        }
        let bloom = match BloomFilter::from_bytes(bloom_slice) {
            Err(e) => {
                return Err(e);
            },
            Ok(b) => b,
        };
        let ghost have_pre = have.deep_view();
        let ghost new_hv = HaveView { last_sync: ls.deep_view(), bloom: bloom@ };
        have.push(Have { last_sync: ls, bloom });
        proof {
            assert(have.deep_view() =~= have_pre.push(new_hv));
            assert(bytes@.skip(q2 as int).skip(bn as int) =~= bytes@.skip(q3 as int));
            assert(spec_read_have(s_cur) == Ok::<(HaveView, Seq<u8>), MessageErrView>(
                (new_hv, bytes@.skip(q3 as int)),
            ));
            match spec_read_haves(bytes@.skip(q3 as int), (rem - 1) as nat) {
                Ok(rr) => {
                    assert(spec_read_haves(s_cur, rem) == Ok::<
                        (Seq<HaveView>, Seq<u8>),
                        MessageErrView,
                    >((seq![new_hv] + rr.0, rr.1)));
                    assert(have_pre + (seq![new_hv] + rr.0) =~= have.deep_view() + rr.0);
                },
                Err(_) => {},
            }
        }
        p = q3;
        k = k + 1;
    }
    proof {
        assert(spec_read_haves(bytes@.skip(p as int), 0) == Ok::<
            (Seq<HaveView>, Seq<u8>),
            MessageErrView,
        >((Seq::empty(), bytes@.skip(p as int))));
        assert(have.deep_view() + Seq::<HaveView>::empty() =~= have.deep_view());
    }
    Ok((have, p))
}

/// Reads `count` length-prefixed change blobs starting at `pos`.
#[verifier::loop_isolation(false)]
fn read_changes(bytes: &[u8], pos: usize, count: u64) -> (r: Result<
    (Vec<Change>, usize),
    ReadMessageError,
>)
    requires
        pos <= bytes@.len(),
    ensures
        match r {
            Ok(p) => {
                &&& spec_read_changes(bytes@.skip(pos as int), count as nat) == Ok::<
                    (Seq<ChangeView>, Seq<u8>),
                    MessageErrView,
                >((p.0.deep_view(), bytes@.skip(p.1 as int)))
                &&& pos <= p.1 <= bytes@.len()
            },
            Err(e) => spec_read_changes(bytes@.skip(pos as int), count as nat) == Err::<
                (Seq<ChangeView>, Seq<u8>),
                MessageErrView,
            >(e@),
        },
{
    let mut changes: Vec<Change> = Vec::new();
    let mut q = pos;
    let mut c: u64 = 0;
    proof {
        assert(changes.deep_view() =~= Seq::<ChangeView>::empty());
    }
    while c < count
        invariant
            pos <= q <= bytes@.len(),
            0 <= c <= count,
            changes.deep_view().len() == c,
            match spec_read_changes(bytes@.skip(q as int), (count - c) as nat) {
                Ok(rr) => spec_read_changes(bytes@.skip(pos as int), count as nat) == Ok::<
                    (Seq<ChangeView>, Seq<u8>),
                    MessageErrView,
                >((changes.deep_view() + rr.0, rr.1)),
                Err(e) => spec_read_changes(bytes@.skip(pos as int), count as nat) == Err::<
                    (Seq<ChangeView>, Seq<u8>),
                    MessageErrView,
                >(e),
            },
        decreases count - c,
    {
        let ghost s_cur = bytes@.skip(q as int);
        let ghost rem = (count - c) as nat;
        let (bn, r1) = match read_count(bytes, q) {
            Err(e) => {
                return Err(e);
            },
            Ok(v) => v,
        };
        if ((bytes.len() - r1) as u64) < bn {
            return Err(ReadMessageError::NotEnoughInput);
        }
        let r2 = r1 + (bn as usize);
        let blob = vstd::slice::slice_subrange(bytes, r1, r2);
        proof {
            assert(blob@ =~= bytes@.skip(r1 as int).take(bn as int));
        }
        let change = match Change::from_bytes(blob) {
            Err(e) => {
                return Err(e);
            },
            Ok(ch) => ch,
        };
        let ghost changes_pre = changes.deep_view();
        let ghost new_cv = change@;
        changes.push(change);
        proof {
            assert(changes.deep_view() =~= changes_pre.push(new_cv));
            assert(bytes@.skip(r1 as int).skip(bn as int) =~= bytes@.skip(r2 as int));
            match spec_read_changes(bytes@.skip(r2 as int), (rem - 1) as nat) {
                Ok(rr) => {
                    assert(spec_read_changes(s_cur, rem) == Ok::<
                        (Seq<ChangeView>, Seq<u8>),
                        MessageErrView,
                    >((seq![new_cv] + rr.0, rr.1)));
                    assert(changes_pre + (seq![new_cv] + rr.0) =~= changes.deep_view() + rr.0);
                },
                Err(_) => {},
            }
        }
        q = r2;
        c = c + 1;
    }
    proof {
        assert(spec_read_changes(bytes@.skip(q as int), 0) == Ok::<
            (Seq<ChangeView>, Seq<u8>),
            MessageErrView,
        >((Seq::empty(), bytes@.skip(q as int))));
        assert(changes.deep_view() + Seq::<ChangeView>::empty() =~= changes.deep_view());
    }
    Ok((changes, q))
}

impl Message {
    /// Parses the front of `bytes` as a sync message; bytes after the
    /// message are ignored. Rejects a first byte other than the sync
    /// discriminator, and any field the input ends inside of.
    pub fn decode(bytes: &[u8]) -> (r: Result<Message, ReadMessageError>)
        ensures
            match r {
                Ok(m) => {
                    &&& spec_msg_decode(bytes@) == Ok::<MessageView, MessageErrView>(m@)
                    &&& forall|i: int|
                        0 <= i < m@.have.len() ==> bloom_view_wf(#[trigger] m@.have[i].bloom)
                },
                Err(e) => spec_msg_decode(bytes@) == Err::<MessageView, MessageErrView>(e@),
            },
    {
        if bytes.len() == 0 {
            return Err(ReadMessageError::NotEnoughInput);
        }
        if bytes[0] != MESSAGE_TYPE_SYNC {
            let mut expected: Vec<u8> = Vec::new();
            expected.push(MESSAGE_TYPE_SYNC);
            proof {
                assert(expected@ =~= seq![MESSAGE_TYPE_SYNC]);
            }
            return Err(ReadMessageError::WrongType { expected_one_of: expected, found: bytes[0] });
        }
        let (heads, p1) = match read_hash_vec(bytes, 1) {
            Err(e) => {
                return Err(e);
            },
            Ok(v) => v,
        };
        let (need, p2) = match read_hash_vec(bytes, p1) {
            Err(e) => {
                return Err(e);
            },
            Ok(v) => v,
        };
        let (hc, p3) = match read_count(bytes, p2) {
            Err(e) => {
                return Err(e);
            },
            Ok(v) => v,
        };
        let (have, p4) = match read_haves(bytes, p3, hc) {
            Err(e) => {
                return Err(e);
            },
            Ok(v) => v,
        };
        let (cc, p5) = match read_count(bytes, p4) {
            Err(e) => {
                return Err(e);
            },
            Ok(v) => v,
        };
        let (changes, _p6) = match read_changes(bytes, p5, cc) {
            Err(e) => {
                return Err(e);
            },
            Ok(v) => v,
        };
        Ok(Message { heads, need, have, changes })
    }
}


// ---------------------------------------------------------------------
// Round trip: decoding an encoding yields the original message.
// ---------------------------------------------------------------------
/// A LEB128 encoding is never longer than one byte per unit of value.
proof fn lemma_leb128_len_linear(v: nat)
    ensures
        spec_leb128(v).len() <= v + 1,
    decreases v,
{
    if v >= 128 {
        lemma_leb128_len_linear(v / 128);
        assert(v / 128 + 1 <= v) by (nonlinear_arith)
            requires
                v >= 128,
        ;
    }
}

proof fn lemma_cat_read(hs: Seq<Seq<u8>>, rest: Seq<u8>)
    requires
        forall|i: int| 0 <= i < hs.len() ==> #[trigger] hs[i].len() == 32,
    ensures
        spec_read_hash_list(spec_cat(hs) + rest, hs.len()) == Ok::<
            (Seq<Seq<u8>>, Seq<u8>),
            MessageErrView,
        >((hs, rest)),
    decreases hs.len(),
{
    let s = spec_cat(hs) + rest;
    if hs.len() == 0 {
        assert(s =~= rest);
        assert(hs =~= Seq::<Seq<u8>>::empty());
    } else {
        lemma_cat_read(hs.skip(1), rest);
        assert(s =~= hs[0] + (spec_cat(hs.skip(1)) + rest));
        assert(s.len() >= 32);
        assert(s.subrange(0, 32) =~= hs[0]);
        assert(s.skip(32) =~= spec_cat(hs.skip(1)) + rest);
        assert(seq![s.subrange(0, 32)] + hs.skip(1) =~= hs);
    }
}

proof fn lemma_hash_vec_round_trip(hs: Seq<Seq<u8>>, rest: Seq<u8>)
    requires
        forall|i: int| 0 <= i < hs.len() ==> #[trigger] hs[i].len() == 32,
        hs.len() <= u64::MAX,
    ensures
        spec_read_hash_vec(spec_enc_hashes(hs) + rest) == Ok::<
            (Seq<Seq<u8>>, Seq<u8>),
            MessageErrView,
        >((hs, rest)),
{
    let s = spec_enc_hashes(hs) + rest;
    lemma_leb128_round_trip(hs.len(), spec_cat(hs) + rest);
    assert(s =~= spec_leb128(hs.len()) + (spec_cat(hs) + rest));
    assert(s.skip(spec_leb128(hs.len()).len() as int) =~= spec_cat(hs) + rest);
    lemma_cat_read(hs, rest);
}

proof fn lemma_blob_round_trip(b: Seq<u8>, rest: Seq<u8>)
    requires
        b.len() <= u64::MAX,
    ensures
        spec_read_blob(spec_lp(b) + rest) == Ok::<(Seq<u8>, Seq<u8>), MessageErrView>((b, rest)),
{
    let s = spec_lp(b) + rest;
    lemma_leb128_round_trip(b.len(), b + rest);
    assert(s =~= spec_leb128(b.len()) + (b + rest));
    let s1 = s.skip(spec_leb128(b.len()).len() as int);
    assert(s1 =~= b + rest);
    assert(s1.take(b.len() as int) =~= b);
    assert(s1.skip(b.len() as int) =~= rest);
}

/// What the round-trip law asks of a change: its pieces fit the wire's
/// counts. Every value built from the executable types satisfies it.
pub open spec fn change_encodable(c: ChangeView) -> bool {
    &&& c.hash.len() == 32
    &&& forall|i: int| 0 <= i < c.deps.len() ==> #[trigger] c.deps[i].len() == 32
    &&& c.deps.len() <= u64::MAX
    &&& spec_change_bytes(c).len() <= u64::MAX
}

proof fn lemma_change_round_trip(c: ChangeView)
    requires
        change_encodable(c),
    ensures
        spec_change_decode(spec_change_bytes(c)) == Ok::<ChangeView, MessageErrView>(c),
{
    let s = spec_change_bytes(c);
    assert(s.len() >= 32);
    assert(s.subrange(0, 32) =~= c.hash);
    assert(s.skip(32) =~= spec_leb128(c.deps.len()) + (spec_cat(c.deps) + c.payload));
    lemma_leb128_round_trip(c.deps.len(), spec_cat(c.deps) + c.payload);
    assert(s.skip(32).skip(spec_leb128(c.deps.len()).len() as int) =~= spec_cat(c.deps)
        + c.payload);
    lemma_cat_read(c.deps, c.payload);
}

/// What the round-trip law asks of a have summary.
pub open spec fn have_encodable(h: HaveView) -> bool {
    &&& forall|i: int| 0 <= i < h.last_sync.len() ==> #[trigger] h.last_sync[i].len() == 32
    &&& h.last_sync.len() <= u64::MAX
    &&& bloom_view_wf(h.bloom)
}

proof fn lemma_have_round_trip(h: HaveView, rest: Seq<u8>)
    requires
        have_encodable(h),
    ensures
        spec_read_have(spec_enc_have(h) + rest) == Ok::<(HaveView, Seq<u8>), MessageErrView>(
            (h, rest),
        ),
{
    let s = spec_enc_have(h) + rest;
    let bb = spec_bloom_bytes(h.bloom);
    assert(bb.len() <= u64::MAX) by {
        lemma_leb128_len_linear(h.bloom.n);
        lemma_leb128_len_linear(h.bloom.k);
        lemma_leb128_len_linear(h.bloom.m);
    }
    assert(s =~= spec_enc_hashes(h.last_sync) + (spec_lp(bb) + rest));
    lemma_hash_vec_round_trip(h.last_sync, spec_lp(bb) + rest);
    lemma_blob_round_trip(bb, rest);
    crate::bloom::lemma_bloom_round_trip(h.bloom);
}

proof fn lemma_haves_round_trip(hs: Seq<HaveView>, rest: Seq<u8>)
    requires
        forall|i: int| 0 <= i < hs.len() ==> have_encodable(#[trigger] hs[i]),
    ensures
        spec_read_haves(spec_enc_haves(hs) + rest, hs.len()) == Ok::<
            (Seq<HaveView>, Seq<u8>),
            MessageErrView,
        >((hs, rest)),
    decreases hs.len(),
{
    let s = spec_enc_haves(hs) + rest;
    if hs.len() == 0 {
        assert(s =~= rest);
        assert(hs =~= Seq::<HaveView>::empty());
    } else {
        lemma_haves_round_trip(hs.skip(1), rest);
        assert(s =~= spec_enc_have(hs[0]) + (spec_enc_haves(hs.skip(1)) + rest));
        lemma_have_round_trip(hs[0], spec_enc_haves(hs.skip(1)) + rest);
        assert(seq![hs[0]] + hs.skip(1) =~= hs);
    }
}

proof fn lemma_changes_round_trip(cs: Seq<ChangeView>, rest: Seq<u8>)
    requires
        forall|i: int| 0 <= i < cs.len() ==> change_encodable(#[trigger] cs[i]),
    ensures
        spec_read_changes(spec_enc_changes(cs) + rest, cs.len()) == Ok::<
            (Seq<ChangeView>, Seq<u8>),
            MessageErrView,
        >((cs, rest)),
    decreases cs.len(),
{
    let s = spec_enc_changes(cs) + rest;
    if cs.len() == 0 {
        assert(s =~= rest);
        assert(cs =~= Seq::<ChangeView>::empty());
    } else {
        lemma_changes_round_trip(cs.skip(1), rest);
        let body = spec_change_bytes(cs[0]);
        assert(s =~= spec_lp(body) + (spec_enc_changes(cs.skip(1)) + rest));
        lemma_blob_round_trip(body, spec_enc_changes(cs.skip(1)) + rest);
        lemma_change_round_trip(cs[0]);
        assert(seq![cs[0]] + cs.skip(1) =~= cs);
    }
}

/// What the round-trip law asks of a whole message: every count fits
/// the wire, every hash is 32 bytes, every bloom keeps its shape.
pub open spec fn msg_encodable(m: MessageView) -> bool {
    &&& forall|i: int| 0 <= i < m.heads.len() ==> #[trigger] m.heads[i].len() == 32
    &&& forall|i: int| 0 <= i < m.need.len() ==> #[trigger] m.need[i].len() == 32
    &&& m.heads.len() <= u64::MAX
    &&& m.need.len() <= u64::MAX
    &&& m.have.len() <= u64::MAX
    &&& m.changes.len() <= u64::MAX
    &&& forall|i: int| 0 <= i < m.have.len() ==> have_encodable(#[trigger] m.have[i])
    &&& forall|i: int| 0 <= i < m.changes.len() ==> change_encodable(#[trigger] m.changes[i])
}

/// Round trip: decoding an encoded message gives the message back,
/// for every message the executable types can hold.
#[verifier::rlimit(50)]
pub proof fn lemma_message_round_trip(m: MessageView)
    requires
        msg_encodable(m),
    ensures
        spec_msg_decode(spec_msg_bytes(m)) == Ok::<MessageView, MessageErrView>(m),
{
    let s = spec_msg_bytes(m);
    let after_heads = spec_enc_hashes(m.need) + spec_leb128(m.have.len()) + spec_enc_haves(m.have)
        + spec_leb128(m.changes.len()) + spec_enc_changes(m.changes);
    let after_need = spec_leb128(m.have.len()) + spec_enc_haves(m.have) + spec_leb128(
        m.changes.len(),
    ) + spec_enc_changes(m.changes);
    let after_hc = spec_enc_haves(m.have) + (spec_leb128(m.changes.len()) + spec_enc_changes(
        m.changes,
    ));
    let after_haves = spec_leb128(m.changes.len()) + spec_enc_changes(m.changes);
    assert(s.len() > 0 && s[0] == MESSAGE_TYPE_SYNC);
    assert(s.skip(1) =~= spec_enc_hashes(m.heads) + after_heads);
    lemma_hash_vec_round_trip(m.heads, after_heads);
    assert(after_heads =~= spec_enc_hashes(m.need) + after_need);
    lemma_hash_vec_round_trip(m.need, after_need);
    lemma_leb128_round_trip(m.have.len(), after_hc);
    assert(after_need =~= spec_leb128(m.have.len()) + after_hc);
    assert(after_need.skip(spec_leb128(m.have.len()).len() as int) =~= after_hc);
    lemma_haves_round_trip(m.have, after_haves);
    assert(after_hc =~= spec_enc_haves(m.have) + after_haves);
    lemma_leb128_round_trip(m.changes.len(), spec_enc_changes(m.changes));
    assert(after_haves.skip(spec_leb128(m.changes.len()).len() as int) =~= spec_enc_changes(
        m.changes,
    ));
    lemma_changes_round_trip(m.changes, Seq::<u8>::empty());
    assert(spec_enc_changes(m.changes) + Seq::<u8>::empty() =~= spec_enc_changes(m.changes));
}

} // verus!
