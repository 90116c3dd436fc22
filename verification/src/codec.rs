//! Fixed-order binary codec for swap records.
//!
//! The wire format is built from three primitives: a 64-bit value as eight
//! little-endian bytes, a byte string as its length followed by its bytes,
//! and a lifecycle state as a single tag byte. Each record codec writes its
//! fields in a fixed order, so the encoding doubles as the stable wire
//! format returned by the query operations.

use vstd::prelude::*;
use vstd::slice::{slice_subrange, slice_to_vec};

use crate::state::SwapState;

verus! {

/// The eight little-endian bytes of a 64-bit value.
pub open spec fn u64_le(v: u64) -> Seq<u8> {
    seq![
        (v & 0xff) as u8,
        ((v >> 8) & 0xff) as u8,
        ((v >> 16) & 0xff) as u8,
        ((v >> 24) & 0xff) as u8,
        ((v >> 32) & 0xff) as u8,
        ((v >> 40) & 0xff) as u8,
        ((v >> 48) & 0xff) as u8,
        ((v >> 56) & 0xff) as u8,
    ]
}

/// The 64-bit value read back from eight little-endian bytes.
pub open spec fn u64_from_le(s: Seq<u8>) -> u64
    recommends
        s.len() == 8,
{
    ((s[0] as u64) | ((s[1] as u64) << 8) | ((s[2] as u64) << 16) | ((s[3] as u64) << 24)
        | ((s[4] as u64) << 32) | ((s[5] as u64) << 40) | ((s[6] as u64) << 48) | ((
    s[7] as u64) << 56))
}

/// Reading back the little-endian bytes of a value yields the value.
pub proof fn lemma_u64_le_round_trip(v: u64)
    ensures
        u64_from_le(u64_le(v)) == v,
{
    assert((((v & 0xff) as u8) as u64) | (((((v >> 8) & 0xff) as u8) as u64) << 8) | (((((v
        >> 16) & 0xff) as u8) as u64) << 16) | (((((v >> 24) & 0xff) as u8) as u64) << 24) | (((((v
        >> 32) & 0xff) as u8) as u64) << 32) | (((((v >> 40) & 0xff) as u8) as u64) << 40) | (((((v
        >> 48) & 0xff) as u8) as u64) << 48) | (((((v >> 56) & 0xff) as u8) as u64) << 56) == v)
        by (bit_vector);
}

/// A byte string on the wire: its length, then its bytes.
pub open spec fn blob(s: Seq<u8>) -> Seq<u8>
    recommends
        s.len() <= u64::MAX,
{
    u64_le(s.len() as u64) + s
}

/// The tag byte of a lifecycle state.
pub open spec fn state_byte(st: SwapState) -> u8 {
    match st {
        SwapState::Open => 0,
        SwapState::Cancelled => 1,
        SwapState::Finalized => 2,
    }
}

/// What a 64-bit read at `pos` yields: the value and the next position,
/// or nothing if fewer than eight bytes remain.
pub open spec fn spec_read_u64(data: Seq<u8>, pos: int) -> Option<(u64, int)> {
    if 0 <= pos && pos + 8 <= data.len() {
        Some((u64_from_le(data.subrange(pos, pos + 8)), pos + 8))
    } else {
        None
    }
}

/// What a byte-string read at `pos` yields: the bytes and the next
/// position, or nothing if the length prefix or the bytes run out.
pub open spec fn spec_read_bytes(data: Seq<u8>, pos: int) -> Option<(Seq<u8>, int)> {
    match spec_read_u64(data, pos) {
        Some((n, p)) => if p + n <= data.len() {
            Some((data.subrange(p, p + n), p + n))
        } else {
            None
        },
        None => None,
    }
}

/// What a state read at `pos` yields, or nothing at the end of the data
/// or on a byte that is no state tag.
pub open spec fn spec_read_state(data: Seq<u8>, pos: int) -> Option<(SwapState, int)> {
    if 0 <= pos && pos + 1 <= data.len() {
        if data[pos] == 0u8 {
            Some((SwapState::Open, pos + 1))
        } else if data[pos] == 1u8 {
            Some((SwapState::Cancelled, pos + 1))
        } else if data[pos] == 2u8 {
            Some((SwapState::Finalized, pos + 1))
        } else {
            None
        }
    } else {
        None
    }
}

/// Append the eight little-endian bytes of `v`.
pub fn put_u64(out: &mut Vec<u8>, v: u64)
    ensures
        final(out)@ == old(out)@ + u64_le(v),
{
    proof {
        assert((v & 0xff) < 256 && ((v >> 8) & 0xff) < 256 && ((v >> 16) & 0xff) < 256 && ((v
            >> 24) & 0xff) < 256 && ((v >> 32) & 0xff) < 256 && ((v >> 40) & 0xff) < 256 && ((v
            >> 48) & 0xff) < 256 && ((v >> 56) & 0xff) < 256) by (bit_vector);
    }
    out.push((v & 0xff) as u8);
    out.push(((v >> 8) & 0xff) as u8);
    out.push(((v >> 16) & 0xff) as u8);
    out.push(((v >> 24) & 0xff) as u8);
    out.push(((v >> 32) & 0xff) as u8);
    out.push(((v >> 40) & 0xff) as u8);
    out.push(((v >> 48) & 0xff) as u8);
    out.push(((v >> 56) & 0xff) as u8);
    proof {
        assert(out@ =~= old(out)@ + u64_le(v));
    }
}

/// Append a length-prefixed byte string.
pub fn put_bytes(out: &mut Vec<u8>, s: &Vec<u8>)
    ensures
        final(out)@ == old(out)@ + blob(s@),
{
    put_u64(out, s.len() as u64);
    let mut i: usize = 0;
    while i < s.len()
        invariant
            i <= s@.len(),
            out@ == old(out)@ + u64_le(s@.len() as u64) + s@.subrange(0, i as int),
        decreases s@.len() - i,
    {
        out.push(s[i]);
        proof {
            assert(s@.subrange(0, i + 1 as int) =~= s@.subrange(0, i as int).push(s@[i as int]));
            assert(out@ =~= old(out)@ + u64_le(s@.len() as u64) + s@.subrange(0, i + 1 as int));
        }
        i += 1;
    }
    proof {
        assert(s@.subrange(0, s@.len() as int) =~= s@);
        assert(out@ =~= old(out)@ + blob(s@));
    }
}

/// Append the tag byte of a lifecycle state.
pub fn put_state(out: &mut Vec<u8>, st: SwapState)
    ensures
        final(out)@ == old(out)@ + seq![state_byte(st)],
{
    let b: u8 = match st {
        SwapState::Open => 0,
        SwapState::Cancelled => 1,
        SwapState::Finalized => 2,
    };
    out.push(b);
    proof {
        assert(out@ =~= old(out)@ + seq![state_byte(st)]);
    }
}

/// Read a 64-bit value at `pos`.
pub fn read_u64(data: &Vec<u8>, pos: usize) -> (r: Option<(u64, usize)>)
    ensures
        match r {
            Some(vp) => spec_read_u64(data@, pos as int) == Some((vp.0, vp.1 as int)),
            None => spec_read_u64(data@, pos as int) is None,
        },
{
    if pos > data.len() || data.len() - pos < 8 {
        return None;
    }
    let v = (data[pos] as u64) | ((data[pos + 1] as u64) << 8) | ((data[pos + 2] as u64) << 16) | ((
    data[pos + 3] as u64) << 24) | ((data[pos + 4] as u64) << 32) | ((data[pos + 5] as u64) << 40)
        | ((data[pos + 6] as u64) << 48) | ((data[pos + 7] as u64) << 56);
    proof {
        let s = data@.subrange(pos as int, pos as int + 8);
        assert(s[0] == data@[pos as int]);
        assert(s[1] == data@[pos as int + 1]);
        assert(s[2] == data@[pos as int + 2]);
        assert(s[3] == data@[pos as int + 3]);
        assert(s[4] == data@[pos as int + 4]);
        assert(s[5] == data@[pos as int + 5]);
        assert(s[6] == data@[pos as int + 6]);
        assert(s[7] == data@[pos as int + 7]);
    }
    Some((v, pos + 8))
}

/// Read a length-prefixed byte string at `pos`.
pub fn read_bytes(data: &Vec<u8>, pos: usize) -> (r: Option<(Vec<u8>, usize)>)
    ensures
        match r {
            Some(bp) => spec_read_bytes(data@, pos as int) == Some((bp.0@, bp.1 as int)),
            None => spec_read_bytes(data@, pos as int) is None,
        },
{
    match read_u64(data, pos) {
        None => None,
        Some((n, p)) => {
            if n > (data.len() - p) as u64 {
                return None;
            }
            let n_us = n as usize;
            let b = slice_to_vec(slice_subrange(data.as_slice(), p, p + n_us));
            Some((b, p + n_us))
        },
    }
}

/// Read a lifecycle state at `pos`.
pub fn read_state(data: &Vec<u8>, pos: usize) -> (r: Option<(SwapState, usize)>)
    ensures
        match r {
            Some(sp) => spec_read_state(data@, pos as int) == Some((sp.0, sp.1 as int)),
            None => spec_read_state(data@, pos as int) is None,
        },
{
    if pos >= data.len() {
        return None;
    }
    let b = data[pos];
    if b == 0 {
        Some((SwapState::Open, pos + 1))
    } else if b == 1 {
        Some((SwapState::Cancelled, pos + 1))
    } else if b == 2 {
        Some((SwapState::Finalized, pos + 1))
    } else {
        None
    }
}

/// Consuming the leading chunk of a decomposed suffix leaves its tail.
pub proof fn lemma_peel(data: Seq<u8>, pos: int, chunk: Seq<u8>, rest: Seq<u8>)
    requires
        0 <= pos <= data.len(),
        data.subrange(pos, data.len() as int) == chunk + rest,
    ensures
        pos + chunk.len() + rest.len() == data.len(),
        data.subrange(pos + chunk.len(), data.len() as int) == rest,
{
    let tail = data.subrange(pos, data.len() as int);
    assert(tail.len() == chunk.len() + rest.len());
    let cut = data.subrange(pos + chunk.len(), data.len() as int);
    assert forall|i: int| 0 <= i < rest.len() implies #[trigger] cut[i] == rest[i] by {
        assert(cut[i] == data[pos + chunk.len() + i]);
        assert(tail[chunk.len() + i] == data[pos + chunk.len() + i]);
        assert(tail[chunk.len() + i] == (chunk + rest)[chunk.len() + i]);
        assert((chunk + rest)[chunk.len() + i] == rest[i]);
    }
    assert(cut =~= rest);
}

/// A 64-bit read lands on the little-endian bytes it was written as,
/// leaving the rest of the data at the following position.
pub proof fn lemma_read_u64_at(data: Seq<u8>, pos: int, v: u64, rest: Seq<u8>)
    requires
        0 <= pos <= data.len(),
        data.subrange(pos, data.len() as int) == u64_le(v) + rest,
    ensures
        spec_read_u64(data, pos) == Some((v, pos + 8)),
        pos + 8 + rest.len() == data.len(),
        data.subrange(pos + 8, data.len() as int) == rest,
{
    assert(u64_le(v).len() == 8);
    lemma_peel(data, pos, u64_le(v), rest);
    let tail = data.subrange(pos, data.len() as int);
    assert(tail.len() == 8 + rest.len());
    let s = data.subrange(pos, pos + 8);
    assert(s =~= u64_le(v)) by {
        assert(forall|i: int|
            0 <= i < 8 ==> s[i] == tail[i] && tail[i] == (u64_le(v) + rest)[i]);
    }
    lemma_u64_le_round_trip(v);
}

/// A byte-string read lands on the blob it was written as, leaving the
/// rest of the data at the following position.
pub proof fn lemma_read_bytes_at(data: Seq<u8>, pos: int, s: Seq<u8>, rest: Seq<u8>)
    requires
        0 <= pos <= data.len(),
        s.len() <= u64::MAX,
        data.subrange(pos, data.len() as int) == blob(s) + rest,
    ensures
        spec_read_bytes(data, pos) == Some((s, pos + 8 + s.len())),
        pos + 8 + s.len() + rest.len() == data.len(),
        data.subrange(pos + 8 + s.len(), data.len() as int) == rest,
{
    assert(blob(s).len() == 8 + s.len());
    lemma_peel(data, pos, blob(s), rest);
    assert(blob(s) + rest =~= u64_le(s.len() as u64) + (s + rest));
    lemma_read_u64_at(data, pos, s.len() as u64, s + rest);
    let tail = data.subrange(pos, data.len() as int);
    let p = pos + 8;
    let n = s.len() as u64;
    assert(p + n <= data.len());
    let got = data.subrange(p, p + n);
    assert(got =~= s) by {
        assert(forall|i: int|
            0 <= i < s.len() ==> got[i] == tail[i + 8] && tail[i + 8] == (u64_le(s.len() as u64) + (
            s + rest))[i + 8]);
    }
}

/// A state read lands on the tag byte it was written as, leaving the
/// rest of the data at the following position.
pub proof fn lemma_read_state_at(data: Seq<u8>, pos: int, st: SwapState, rest: Seq<u8>)
    requires
        0 <= pos <= data.len(),
        data.subrange(pos, data.len() as int) == seq![state_byte(st)] + rest,
    ensures
        spec_read_state(data, pos) == Some((st, pos + 1)),
        pos + 1 + rest.len() == data.len(),
        data.subrange(pos + 1, data.len() as int) == rest,
{
    lemma_peel(data, pos, seq![state_byte(st)], rest);
    let tail = data.subrange(pos, data.len() as int);
    assert(tail.len() == 1 + rest.len());
    assert(data[pos] == tail[0]);
    assert(tail[0] == (seq![state_byte(st)] + rest)[0]);
}

} // verus!
