//! Unsigned LEB128 variable-length integers: every count on the wire is
//! written in this form. Writing goes through the `leb128` crate; reading
//! is implemented and verified here against the same specification.

use vstd::prelude::*;

verus! {

/// The unsigned LEB128 encoding of `v`: low seven bits first, the high
/// bit of each byte marking that more bytes follow.
pub open spec fn spec_leb128(v: nat) -> Seq<u8>
    decreases v,
{
    if v < 128 {
        seq![v as u8]
    } else {
        seq![(v % 128 + 128) as u8] + spec_leb128(v / 128)
    }
}

/// Reads one unsigned LEB128 integer from the front of `s`, giving the
/// value and the number of bytes consumed; `None` when `s` ends before
/// the encoding does.
pub open spec fn spec_read_leb128(s: Seq<u8>) -> Option<(nat, nat)>
    decreases s.len(),
{
    if s.len() == 0 {
        None
    } else if s[0] < 128 {
        Some((s[0] as nat, 1))
    } else {
        match spec_read_leb128(s.skip(1)) {
            None => None,
            Some((v, n)) => Some((((s[0] - 128) + 128 * v) as nat, (n + 1) as nat)),
        }
    }
}

/// Reading back what was written yields the value and consumes exactly
/// its encoding, whatever follows it.
pub proof fn lemma_leb128_round_trip(v: nat, rest: Seq<u8>)
    ensures
        spec_leb128(v).len() >= 1,
        spec_read_leb128(spec_leb128(v) + rest) == Some((v, spec_leb128(v).len())),
    decreases v,
{
    let s = spec_leb128(v) + rest;
    if v < 128 {
        assert(s[0] == v as u8);
        assert(s[0] < 128);
    } else {
        assert(s[0] == (v % 128 + 128) as u8);
        assert(s[0] >= 128);
        lemma_leb128_round_trip(v / 128, rest);
        assert(s.skip(1) =~= spec_leb128(v / 128) + rest);
        assert((s[0] - 128) + 128 * (v / 128) == v % 128 + 128 * (v / 128));
        assert(v % 128 + 128 * (v / 128) == v);
    }
}

/// Relies on `leb128::write::unsigned`: appends the unsigned LEB128
/// encoding of `v` (low seven bits first, high bit marking continuation)
/// to the buffer. Writing into a `Vec<u8>` cannot fail.
#[verifier::external_body]
pub fn write_leb128(buf: &mut Vec<u8>, v: u64)
    ensures
        final(buf)@ == old(buf)@ + spec_leb128(v as nat),
{
    let _ = leb128::write::unsigned(buf, v);
}

/// Reads one unsigned LEB128 integer from `bytes` starting at `pos`.
/// Returns the value and the position just past it; `None` when the
/// input ends first or the value does not fit in a `u64`.
pub fn read_leb128(bytes: &[u8], pos: usize) -> (r: Option<(u64, usize)>)
    requires
        pos <= bytes@.len(),
    ensures
        match r {
            Some(p) => {
                &&& spec_read_leb128(bytes@.skip(pos as int)) == Some(
                    (p.0 as nat, (p.1 - pos) as nat),
                )
                &&& pos < p.1 <= bytes@.len()
            },
            None => match spec_read_leb128(bytes@.skip(pos as int)) {
                None => true,
                Some(q) => q.0 > u64::MAX,
            },
        },
    decreases bytes@.len() - pos,
{
    let ghost s = bytes@.skip(pos as int);
    if pos >= bytes.len() {
        return None;
    }
    assert(s.len() > 0 && s[0] == bytes@[pos as int]);
    let b = bytes[pos];
    if b < 128 {
        return Some((b as u64, pos + 1));
    }
    assert(s.skip(1) =~= bytes@.skip(pos + 1));
    match read_leb128(bytes, pos + 1) {
        None => None,
        Some((v, np)) => {
            let low = (b - 128) as u64;
            if v > (u64::MAX - low) / 128 {
                proof {
                    assert(128 * v > u64::MAX - low) by {
                        assert(v >= (u64::MAX - low) / 128 + 1);
                        assert(128 * v >= 128 * ((u64::MAX - low) / 128 + 1));
                        assert(128 * ((u64::MAX - low) / 128) + 128 > u64::MAX - low);
                    }
                }
                None
            } else {
                proof {
                    assert(128 * v <= u64::MAX - low) by {
                        assert(128 * v <= 128 * ((u64::MAX - low) / 128));
                        assert(128 * ((u64::MAX - low) / 128) <= u64::MAX - low);
                    }
                }
                Some((low + 128 * v, np))
            }
        },
    }
}

} // verus!
