use vstd::prelude::*;
use crate::words::bytes_range;
use crate::words::le32_at;
use crate::words::le32_bytes;
use crate::words::lemma_le32_at_shift;
use crate::words::lemma_le32_roundtrip;
use crate::words::read_le32;

verus! {

broadcast use crate::words::lemma_le32_bytes_len;

// Message framing: a message starts with a little-endian count of segments
// minus one, followed by one little-endian 32-bit length (in 8-byte words)
// per segment, padded to a word boundary, followed by the segments' data.
// The codec writes single-segment messages; the parser validates the whole
// table and hands out the first segment.

/// Most segments a message may declare.
pub const MAX_SEGMENTS: u64 = 512;

/// The framed form of a single segment (whose length is a multiple of 8).
pub open spec fn spec_frame(seg: Seq<u8>) -> Seq<u8> {
    le32_bytes(0) + le32_bytes((seg.len() / 8) as nat) + seg
}

/// Length in bytes of a segment table declaring `nseg` segments.
pub open spec fn header_bytes_len(nseg: int) -> int {
    (((nseg + 1) * 4 + 7) / 8) * 8
}

/// Sum of the declared segment lengths `i..nseg`, in words.
pub open spec fn seg_lengths_sum(b: Seq<u8>, i: int, nseg: int) -> int
    decreases nseg - i,
{
    if i >= nseg {
        0
    } else {
        le32_at(b, 4 + 4 * i) + seg_lengths_sum(b, i + 1, nseg)
    }
}

pub proof fn lemma_seg_lengths_sum_nonneg(b: Seq<u8>, i: int, nseg: int)
    ensures
        0 <= seg_lengths_sum(b, i, nseg),
    decreases nseg - i,
{
    if i < nseg {
        lemma_seg_lengths_sum_nonneg(b, i + 1, nseg);
    }
}

/// The first segment of a framed message, when the segment table is present
/// and consistent with the buffer's length.
pub open spec fn spec_deframe(b: Seq<u8>) -> Option<Seq<u8>> {
    if b.len() < 8 {
        None
    } else {
        let nseg = le32_at(b, 0) + 1;
        if nseg > MAX_SEGMENTS {
            None
        } else {
            let hb = header_bytes_len(nseg as int);
            if b.len() < hb {
                None
            } else {
                let total = seg_lengths_sum(b, 0, nseg as int);
                if b.len() != hb + 8 * total {
                    None
                } else {
                    let l0 = le32_at(b, 4) as int;
                    Some(b.subrange(hb, hb + 8 * l0))
                }
            }
        }
    }
}

/// Framing a segment and parsing the frame gives the segment back.
pub proof fn lemma_frame_roundtrip(seg: Seq<u8>)
    requires
        seg.len() % 8 == 0,
        seg.len() / 8 < 0x100000000,
    ensures
        spec_deframe(spec_frame(seg)) == Some(seg),
{
    let w = (seg.len() / 8) as nat;
    let b = spec_frame(seg);
    vstd::arithmetic::div_mod::lemma_fundamental_div_mod(seg.len() as int, 8);
    assert(seg.len() == 8 * w);
    assert(b.len() == 8 + seg.len());
    lemma_le32_roundtrip(0);
    lemma_le32_at_shift(b, le32_bytes(0), 0, 0);
    assert(le32_at(b, 0) == 0);
    lemma_le32_roundtrip(w);
    lemma_le32_at_shift(b, le32_bytes(w), 4, 0);
    assert(le32_at(b, 4) == w);
    assert(header_bytes_len(1) == 8);
    assert(seg_lengths_sum(b, 1, 1) == 0);
    assert(seg_lengths_sum(b, 0, 1) == w);
    assert(b.len() == 8 + 8 * w);
    assert(b.subrange(8, 8 + 8 * (w as int)) =~= seg);
}

/// Parses and validates the segment table, returning a copy of the first
/// segment's bytes.
pub fn deframe(b: &Vec<u8>) -> (out: Option<Vec<u8>>)
    ensures
        out matches Some(v) ==> spec_deframe(b@) == Some(v@),
        out is None ==> spec_deframe(b@) is None,
{
    let n = b.len();
    if n < 8 {
        return None;
    }
    let nseg0 = read_le32(b, 0);
    let nseg = nseg0 as u64 + 1;
    if nseg > MAX_SEGMENTS {
        return None;
    }
    let hb64 = (((nseg + 1) * 4 + 7) / 8) * 8;
    assert(hb64 == header_bytes_len(nseg as int));
    if (n as u64) < hb64 {
        return None;
    }
    let hb = hb64 as usize;
    let mut total: u64 = 0;
    let mut i: u64 = 0;
    while i < nseg
        invariant
            n == b@.len(),
            nseg == le32_at(b@, 0) + 1,
            nseg <= MAX_SEGMENTS,
            hb == header_bytes_len(nseg as int),
            hb <= n,
            i <= nseg,
            total <= i * 0x100000000,
            seg_lengths_sum(b@, 0, nseg as int) == total + seg_lengths_sum(
                b@,
                i as int,
                nseg as int,
            ),
        decreases nseg - i,
    {
        assert(4 + 4 * (i as int) + 4 <= hb);
        let li = read_le32(b, (4 + 4 * i) as usize);
        proof {
            assert(total + li <= (i + 1) * 0x100000000) by (nonlinear_arith)
                requires
                    total <= i * 0x100000000,
                    li < 0x100000000,
            ;
        }
        total = total + li as u64;
        i = i + 1;
    }
    proof {
        assert(seg_lengths_sum(b@, nseg as int, nseg as int) == 0);
        assert(seg_lengths_sum(b@, 0, nseg as int) == total);
    }
    if (n as u64) != hb64 + 8 * total {
        return None;
    }
    let l0 = read_le32(b, 4) as u64;
    proof {
        lemma_seg_lengths_sum_nonneg(b@, 1, nseg as int);
        assert(seg_lengths_sum(b@, 0, nseg as int) == l0 + seg_lengths_sum(
            b@,
            1,
            nseg as int,
        ));
        assert(l0 <= total);
    }
    let sl = (8 * l0) as usize;
    assert(hb + sl <= n);
    Some(bytes_range(b, hb, sl))
}

} // verus!
