use vstd::prelude::*;

verus! {

/// Little-endian value of the four bytes of `s` starting at byte offset `o`.
pub open spec fn le32_at(s: Seq<u8>, o: int) -> nat {
    (s[o] + 256 * s[o + 1] + 65536 * s[o + 2] + 16777216 * s[o + 3]) as nat
}

/// The four little-endian bytes of `x`; faithful for `x < 2^32`.
#[verifier::opaque]
pub open spec fn le32_bytes(x: nat) -> Seq<u8> {
    seq![
        (x % 256) as u8,
        ((x / 256) % 256) as u8,
        ((x / 65536) % 256) as u8,
        ((x / 16777216) % 256) as u8,
    ]
}

/// A run of `n` zero bytes.
pub open spec fn zero_bytes(n: int) -> Seq<u8> {
    Seq::new(n as nat, |i: int| 0u8)
}

pub broadcast proof fn lemma_le32_bytes_len(x: nat)
    ensures
        #[trigger] le32_bytes(x).len() == 4,
{
    reveal(le32_bytes);
}

pub proof fn lemma_le32_roundtrip(x: nat)
    requires
        x < 0x100000000,
    ensures
        le32_at(le32_bytes(x), 0) == x,
{
    reveal(le32_bytes);
    assert(x % 256 + 256 * ((x / 256) % 256) + 65536 * ((x / 65536) % 256)
        + 16777216 * ((x / 16777216) % 256) == x) by (nonlinear_arith)
        requires
            x < 0x100000000,
    ;
}

/// Reading four bytes at `o1` in `s` gives the same value as reading at `o2`
/// in `t` when the bytes agree.
pub proof fn lemma_le32_at_shift(s: Seq<u8>, t: Seq<u8>, o1: int, o2: int)
    requires
        0 <= o1,
        o1 + 4 <= s.len(),
        0 <= o2,
        o2 + 4 <= t.len(),
        s[o1] == t[o2],
        s[o1 + 1] == t[o2 + 1],
        s[o1 + 2] == t[o2 + 2],
        s[o1 + 3] == t[o2 + 3],
    ensures
        le32_at(s, o1) == le32_at(t, o2),
{
}

/// Appends the four little-endian bytes of `x`.
pub fn push_le32(out: &mut Vec<u8>, x: u32)
    ensures
        final(out)@ == old(out)@ + le32_bytes(x as nat),
{
    out.push((x % 256) as u8);
    out.push(((x / 256) % 256) as u8);
    out.push(((x / 65536) % 256) as u8);
    out.push(((x / 16777216) % 256) as u8);
    proof {
        reveal(le32_bytes);
        assert(out@ =~= old(out)@ + le32_bytes(x as nat));
    }
}

/// Reads the little-endian 32-bit value at byte offset `o`.
pub fn read_le32(s: &Vec<u8>, o: usize) -> (r: u32)
    requires
        o + 4 <= s@.len(),
    ensures
        r as nat == le32_at(s@, o as int),
{
    let n = s.len();
    assert(o + 4 <= n);
    let b0 = s[o] as u32;
    let b1 = s[o + 1] as u32;
    let b2 = s[o + 2] as u32;
    let b3 = s[o + 3] as u32;
    b0 + 256 * b1 + 65536 * b2 + 16777216 * b3
}

/// Copies the `len` bytes of `s` starting at `start`.
pub fn bytes_range(s: &Vec<u8>, start: usize, len: usize) -> (r: Vec<u8>)
    requires
        start + len <= s@.len(),
    ensures
        r@ == s@.subrange(start as int, start as int + len as int),
{
    let n = s.len();
    assert(start + len <= n);
    let mut r: Vec<u8> = Vec::new();
    let mut i: usize = 0;
    while i < len
        invariant
            start + len <= n == s@.len(),
            i <= len,
            r@ == s@.subrange(start as int, start as int + i as int),
        decreases len - i,
    {
        r.push(s[start + i]);
        proof {
            assert(r@ =~= s@.subrange(start as int, start as int + (i + 1) as int));
        }
        i = i + 1;
    }
    r
}

/// Appends all bytes of `src`.
pub fn push_bytes(out: &mut Vec<u8>, src: &Vec<u8>)
    ensures
        final(out)@ == old(out)@ + src@,
{
    let mut i: usize = 0;
    while i < src.len()
        invariant
            i <= src@.len(),
            out@ == old(out)@ + src@.subrange(0, i as int),
        decreases src@.len() - i,
    {
        out.push(src[i]);
        proof {
            assert(out@ =~= old(out)@ + src@.subrange(0, (i + 1) as int));
        }
        i = i + 1;
    }
    proof {
        assert(src@.subrange(0, src@.len() as int) =~= src@);
    }
}

/// Appends the `len` bytes of `s` starting at `start`.
pub fn push_range(out: &mut Vec<u8>, s: &Vec<u8>, start: usize, len: usize)
    requires
        start + len <= s@.len(),
    ensures
        final(out)@ == old(out)@ + s@.subrange(start as int, start as int + len as int),
{
    let n = s.len();
    assert(start + len <= n);
    let mut i: usize = 0;
    while i < len
        invariant
            start + len <= n == s@.len(),
            i <= len,
            out@ == old(out)@ + s@.subrange(start as int, start as int + i as int),
        decreases len - i,
    {
        out.push(s[start + i]);
        proof {
            assert(out@ =~= old(out)@ + s@.subrange(start as int, start as int + (i + 1) as int));
        }
        i = i + 1;
    }
}

/// Appends `n` zero bytes.
pub fn push_zero_bytes(out: &mut Vec<u8>, n: usize)
    ensures
        final(out)@ == old(out)@ + zero_bytes(n as int),
{
    let mut i: usize = 0;
    while i < n
        invariant
            i <= n,
            out@ == old(out)@ + zero_bytes(i as int),
        decreases n - i,
    {
        out.push(0u8);
        proof {
            assert(out@ =~= old(out)@ + zero_bytes((i + 1) as int));
        }
        i = i + 1;
    }
}

} // verus!
