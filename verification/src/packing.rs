use vstd::prelude::*;
use crate::words::push_range;
use crate::words::push_zero_bytes;
use crate::words::zero_bytes;

verus! {

// The packing transform: before a message goes on the wire, every 8-byte
// word is replaced by a 1-byte mask of its non-zero bytes followed by those
// bytes only.  A mask of 0 is followed by a count of further all-zero words;
// a mask of 0xff is followed by the word itself and a count of further words
// stored verbatim (words with fewer than two zero bytes, which would not
// profit from masking).

/// Number of whole 8-byte words in `s`.
pub open spec fn word_count(s: Seq<u8>) -> int {
    s.len() as int / 8
}

/// The 8 bytes of word `wi` of `s`.
pub open spec fn word_at(s: Seq<u8>, wi: int) -> Seq<u8> {
    s.subrange(8 * wi, 8 * wi + 8)
}

/// 2^k for 0 <= k < 8.
pub open spec fn pow2_8(k: int) -> nat {
    if k <= 0 {
        1
    } else if k == 1 {
        2
    } else if k == 2 {
        4
    } else if k == 3 {
        8
    } else if k == 4 {
        16
    } else if k == 5 {
        32
    } else if k == 6 {
        64
    } else {
        128
    }
}

/// Bit `k` of the mask byte `t`.
pub open spec fn bit_of(t: u8, k: int) -> bool {
    (t as nat / pow2_8(k)) % 2 == 1
}

/// The mask byte of an 8-byte word: bit `k` is set iff byte `k` is non-zero.
pub open spec fn tag_of(w: Seq<u8>) -> u8 {
    ((if w[0] == 0 { 0nat } else { 1nat }) + (if w[1] == 0 { 0nat } else { 2nat })
        + (if w[2] == 0 { 0nat } else { 4nat }) + (if w[3] == 0 { 0nat } else { 8nat })
        + (if w[4] == 0 { 0nat } else { 16nat }) + (if w[5] == 0 { 0nat } else { 32nat })
        + (if w[6] == 0 { 0nat } else { 64nat }) + (if w[7] == 0 { 0nat } else { 128nat })) as u8
}

/// How many of the 8 bytes of `w` are zero.
pub open spec fn zero_byte_count(w: Seq<u8>) -> int {
    (if w[0] == 0 { 1int } else { 0int }) + (if w[1] == 0 { 1int } else { 0int })
        + (if w[2] == 0 { 1int } else { 0int }) + (if w[3] == 0 { 1int } else { 0int })
        + (if w[4] == 0 { 1int } else { 0int }) + (if w[5] == 0 { 1int } else { 0int })
        + (if w[6] == 0 { 1int } else { 0int }) + (if w[7] == 0 { 1int } else { 0int })
}

/// The singleton `[b]` when `b` is non-zero, else the empty sequence.
pub open spec fn opt_byte(b: u8) -> Seq<u8> {
    if b == 0 {
        Seq::empty()
    } else {
        seq![b]
    }
}

/// The non-zero bytes of `w` at positions `k..8`, in order.
pub open spec fn nz_from(w: Seq<u8>, k: int) -> Seq<u8>
    decreases 8 - k,
{
    if k < 0 || k >= 8 {
        Seq::empty()
    } else {
        opt_byte(w[k]) + nz_from(w, k + 1)
    }
}

/// The non-zero bytes of `w`, in order.
pub open spec fn nz_bytes(w: Seq<u8>) -> Seq<u8> {
    nz_from(w, 0)
}

/// How many bits of `t` at positions `k..8` are set.
pub open spec fn setbits_from(t: u8, k: int) -> int
    decreases 8 - k,
{
    if k < 0 || k >= 8 {
        0
    } else {
        (if bit_of(t, k) { 1int } else { 0int }) + setbits_from(t, k + 1)
    }
}

/// Bytes `k..8` of the word whose mask is `t`, taking the masked-in bytes
/// from the front of `s` and restoring a zero elsewhere.
pub open spec fn rebuild_from(t: u8, s: Seq<u8>, k: int) -> Seq<u8>
    decreases 8 - k,
{
    if k < 0 || k >= 8 {
        Seq::empty()
    } else if bit_of(t, k) {
        seq![s[0]] + rebuild_from(t, s.skip(1), k + 1)
    } else {
        seq![0u8] + rebuild_from(t, s, k + 1)
    }
}

pub proof fn lemma_setbits_bounds(t: u8, k: int)
    ensures
        0 <= setbits_from(t, k),
        0 <= k <= 8 ==> setbits_from(t, k) <= 8 - k,
        setbits_from(t, k) <= 8,
    decreases 8 - k,
{
    if 0 <= k < 8 {
        lemma_setbits_bounds(t, k + 1);
    }
}

/// A non-zero mask selects at least one byte.
pub proof fn lemma_setbits_positive(t: u8)
    requires
        t != 0,
    ensures
        setbits_from(t, 0) >= 1,
{
    if setbits_from(t, 0) < 1 {
        lemma_setbits_none(t, 0);
        lemma_tag_zero(t);
    }
}

proof fn lemma_setbits_none(t: u8, k: int)
    requires
        0 <= k <= 8,
        setbits_from(t, k) <= 0,
    ensures
        forall|j: int| k <= j < 8 ==> !bit_of(t, j),
    decreases 8 - k,
{
    if k < 8 {
        lemma_setbits_bounds(t, k + 1);
        lemma_setbits_none(t, k + 1);
    }
}

/// The mask of a word records exactly which bytes are non-zero.
pub proof fn lemma_tag_bits(w: Seq<u8>)
    requires
        w.len() == 8,
    ensures
        forall|k: int| 0 <= k < 8 ==> bit_of(tag_of(w), k) == (w[k] != 0),
{
    let c0: u8 = if w[0] == 0 { 0 } else { 1 };
    let c1: u8 = if w[1] == 0 { 0 } else { 1 };
    let c2: u8 = if w[2] == 0 { 0 } else { 1 };
    let c3: u8 = if w[3] == 0 { 0 } else { 1 };
    let c4: u8 = if w[4] == 0 { 0 } else { 1 };
    let c5: u8 = if w[5] == 0 { 0 } else { 1 };
    let c6: u8 = if w[6] == 0 { 0 } else { 1 };
    let c7: u8 = if w[7] == 0 { 0 } else { 1 };
    let t = tag_of(w);
    assert(t == c0 + 2 * c1 + 4 * c2 + 8 * c3 + 16 * c4 + 32 * c5 + 64 * c6 + 128 * c7);
    assert(((t / 1) % 2 == 1 <==> c0 == 1) && ((t / 2) % 2 == 1 <==> c1 == 1) && ((t / 4) % 2
        == 1 <==> c2 == 1) && ((t / 8) % 2 == 1 <==> c3 == 1) && ((t / 16) % 2 == 1 <==> c4 == 1)
        && ((t / 32) % 2 == 1 <==> c5 == 1) && ((t / 64) % 2 == 1 <==> c6 == 1) && ((t / 128) % 2
        == 1 <==> c7 == 1)) by (bit_vector)
        requires
            c0 <= 1 && c1 <= 1 && c2 <= 1 && c3 <= 1 && c4 <= 1 && c5 <= 1 && c6 <= 1 && c7 <= 1
                && t == c0 + 2 * c1 + 4 * c2 + 8 * c3 + 16 * c4 + 32 * c5 + 64 * c6 + 128 * c7,
    ;
    assert forall|k: int| 0 <= k < 8 implies bit_of(t, k) == (w[k] != 0) by {
        if k == 0 {
            assert(bit_of(t, 0) == ((t / 1) % 2 == 1));
        } else if k == 1 {
            assert(bit_of(t, 1) == ((t / 2) % 2 == 1));
        } else if k == 2 {
            assert(bit_of(t, 2) == ((t / 4) % 2 == 1));
        } else if k == 3 {
            assert(bit_of(t, 3) == ((t / 8) % 2 == 1));
        } else if k == 4 {
            assert(bit_of(t, 4) == ((t / 16) % 2 == 1));
        } else if k == 5 {
            assert(bit_of(t, 5) == ((t / 32) % 2 == 1));
        } else if k == 6 {
            assert(bit_of(t, 6) == ((t / 64) % 2 == 1));
        } else {
            assert(bit_of(t, 7) == ((t / 128) % 2 == 1));
        }
    }
}

/// A mask with no set bit among its 8 low bits is zero.
pub proof fn lemma_tag_zero(t: u8)
    requires
        forall|k: int| 0 <= k < 8 ==> !bit_of(t, k),
    ensures
        t == 0,
{
    assert(!bit_of(t, 0) && !bit_of(t, 1) && !bit_of(t, 2) && !bit_of(t, 3) && !bit_of(t, 4)
        && !bit_of(t, 5) && !bit_of(t, 6) && !bit_of(t, 7));
    assert(t == 0) by (bit_vector)
        requires
            !((t / 1) % 2 == 1) && !((t / 2) % 2 == 1) && !((t / 4) % 2 == 1) && !((t / 8) % 2
                == 1) && !((t / 16) % 2 == 1) && !((t / 32) % 2 == 1) && !((t / 64) % 2 == 1) && !((
            t / 128) % 2 == 1),
    ;
}

proof fn lemma_rebuild_from(w: Seq<u8>, t: u8, k: int)
    requires
        w.len() == 8,
        0 <= k <= 8,
        forall|j: int| k <= j < 8 ==> bit_of(t, j) == (w[j] != 0),
    ensures
        rebuild_from(t, nz_from(w, k), k) == w.subrange(k, 8),
        setbits_from(t, k) == nz_from(w, k).len(),
    decreases 8 - k,
{
    if k >= 8 {
        assert(rebuild_from(t, nz_from(w, k), k) =~= w.subrange(8, 8));
    } else {
        lemma_rebuild_from(w, t, k + 1);
        let s = nz_from(w, k);
        if w[k] != 0 {
            assert(s == seq![w[k]] + nz_from(w, k + 1));
            assert(s[0] == w[k]);
            assert(s.skip(1) =~= nz_from(w, k + 1));
            assert(rebuild_from(t, s, k) == seq![w[k]] + rebuild_from(t, nz_from(w, k + 1), k + 1));
            assert(rebuild_from(t, s, k) =~= w.subrange(k, 8));
        } else {
            assert(s =~= nz_from(w, k + 1));
            assert(rebuild_from(t, s, k) == seq![0u8] + rebuild_from(t, nz_from(w, k + 1), k + 1));
            assert(rebuild_from(t, s, k) =~= w.subrange(k, 8));
        }
    }
}

/// Restoring a word from its mask and its non-zero bytes gives the word back.
pub proof fn lemma_word_roundtrip(w: Seq<u8>)
    requires
        w.len() == 8,
    ensures
        rebuild_from(tag_of(w), nz_bytes(w), 0) == w,
        setbits_from(tag_of(w), 0) == nz_bytes(w).len(),
{
    lemma_tag_bits(w);
    lemma_rebuild_from(w, tag_of(w), 0);
    assert(w.subrange(0, 8) =~= w);
}

/// Number of consecutive all-zero words of `s` starting at word `wi`, at
/// most `max`.
pub open spec fn zero_run(s: Seq<u8>, wi: int, max: int) -> int
    decreases max,
{
    if max <= 0 || wi < 0 || wi >= word_count(s) || tag_of(word_at(s, wi)) != 0 {
        0
    } else {
        1 + zero_run(s, wi + 1, max - 1)
    }
}

/// Number of consecutive words of `s` with fewer than two zero bytes,
/// starting at word `wi`, at most `max`.
pub open spec fn literal_run(s: Seq<u8>, wi: int, max: int) -> int
    decreases max,
{
    if max <= 0 || wi < 0 || wi >= word_count(s) || zero_byte_count(word_at(s, wi)) >= 2 {
        0
    } else {
        1 + literal_run(s, wi + 1, max - 1)
    }
}

pub proof fn lemma_zero_run_bounds(s: Seq<u8>, wi: int, max: int)
    ensures
        0 <= zero_run(s, wi, max),
        zero_run(s, wi, max) <= max || zero_run(s, wi, max) == 0,
        wi >= 0 ==> wi + zero_run(s, wi, max) <= word_count(s) || zero_run(s, wi, max) == 0,
    decreases max,
{
    if !(max <= 0 || wi < 0 || wi >= word_count(s) || tag_of(word_at(s, wi)) != 0) {
        lemma_zero_run_bounds(s, wi + 1, max - 1);
    }
}

pub proof fn lemma_literal_run_bounds(s: Seq<u8>, wi: int, max: int)
    ensures
        0 <= literal_run(s, wi, max),
        literal_run(s, wi, max) <= max || literal_run(s, wi, max) == 0,
        wi >= 0 ==> wi + literal_run(s, wi, max) <= word_count(s) || literal_run(s, wi, max) == 0,
    decreases max,
{
    if !(max <= 0 || wi < 0 || wi >= word_count(s) || zero_byte_count(word_at(s, wi)) >= 2) {
        lemma_literal_run_bounds(s, wi + 1, max - 1);
    }
}

/// A count of consecutive all-zero words observed by a scan equals
/// `zero_run`.
pub proof fn lemma_zero_run_eq(s: Seq<u8>, wi: int, max: int, z: int)
    requires
        0 <= wi,
        0 <= z <= max,
        wi + z <= word_count(s),
        forall|j: int| wi <= j < wi + z ==> tag_of(word_at(s, j)) == 0,
        z < max && wi + z < word_count(s) ==> tag_of(word_at(s, wi + z)) != 0,
    ensures
        zero_run(s, wi, max) == z,
    decreases z, max,
{
    if z == 0 {
        if max > 0 && wi < word_count(s) {
            assert(tag_of(word_at(s, wi)) != 0);
        }
    } else {
        assert(tag_of(word_at(s, wi)) == 0);
        lemma_zero_run_eq(s, wi + 1, max - 1, z - 1);
    }
}

/// A count of consecutive low-zero-count words observed by a scan equals
/// `literal_run`.
pub proof fn lemma_literal_run_eq(s: Seq<u8>, wi: int, max: int, z: int)
    requires
        0 <= wi,
        0 <= z <= max,
        wi + z <= word_count(s),
        forall|j: int| wi <= j < wi + z ==> zero_byte_count(word_at(s, j)) < 2,
        z < max && wi + z < word_count(s) ==> zero_byte_count(word_at(s, wi + z)) >= 2,
    ensures
        literal_run(s, wi, max) == z,
    decreases z, max,
{
    if z == 0 {
        if max > 0 && wi < word_count(s) {
            assert(zero_byte_count(word_at(s, wi)) >= 2);
        }
    } else {
        assert(zero_byte_count(word_at(s, wi)) < 2);
        lemma_literal_run_eq(s, wi + 1, max - 1, z - 1);
    }
}

/// The packed form of words `wi..` of `s` (whose length is a multiple of 8).
pub open spec fn spec_pack_from(s: Seq<u8>, wi: int) -> Seq<u8>
    decreases word_count(s) - wi,
    via spec_pack_from_dec
{
    if wi >= word_count(s) || wi < 0 {
        Seq::empty()
    } else {
        let w = word_at(s, wi);
        let t = tag_of(w);
        if t == 0 {
            let z = zero_run(s, wi + 1, 255);
            seq![0u8, z as u8] + spec_pack_from(s, wi + 1 + z)
        } else if t == 255 {
            let k = literal_run(s, wi + 1, 255);
            seq![255u8] + w + seq![k as u8] + s.subrange(8 * (wi + 1), 8 * (wi + 1 + k))
                + spec_pack_from(s, wi + 1 + k)
        } else {
            seq![t] + nz_bytes(w) + spec_pack_from(s, wi + 1)
        }
    }
}

#[via_fn]
proof fn spec_pack_from_dec(s: Seq<u8>, wi: int) {
    if !(wi >= word_count(s) || wi < 0) {
        lemma_zero_run_bounds(s, wi + 1, 255);
        lemma_literal_run_bounds(s, wi + 1, 255);
    }
}

/// The packed form of the whole of `s`.
pub open spec fn spec_pack(s: Seq<u8>) -> Seq<u8> {
    spec_pack_from(s, 0)
}

/// The words encoded by the packed bytes `b[p..]`, or `None` when the
/// packed stream is truncated or otherwise not decodable.
pub open spec fn spec_unpack_from(b: Seq<u8>, p: int) -> Option<Seq<u8>>
    decreases b.len() - p,
    via spec_unpack_from_dec
{
    if p == b.len() {
        Some(Seq::empty())
    } else if p < 0 || p > b.len() {
        None
    } else {
        let t = b[p];
        if t == 0 {
            if p + 2 <= b.len() {
                let z = b[p + 1] as int;
                match spec_unpack_from(b, p + 2) {
                    Some(rest) => Some(zero_bytes(8 * (z + 1)) + rest),
                    None => None,
                }
            } else {
                None
            }
        } else if t == 255 {
            if p + 10 <= b.len() {
                let k = b[p + 9] as int;
                if p + 10 + 8 * k <= b.len() {
                    match spec_unpack_from(b, p + 10 + 8 * k) {
                        Some(rest) => Some(
                            b.subrange(p + 1, p + 9) + b.subrange(p + 10, p + 10 + 8 * k) + rest,
                        ),
                        None => None,
                    }
                } else {
                    None
                }
            } else {
                None
            }
        } else {
            let c = setbits_from(t, 0);
            if p + 1 + c <= b.len() {
                match spec_unpack_from(b, p + 1 + c) {
                    Some(rest) => Some(rebuild_from(t, b.subrange(p + 1, p + 1 + c), 0) + rest),
                    None => None,
                }
            } else {
                None
            }
        }
    }
}

#[via_fn]
proof fn spec_unpack_from_dec(b: Seq<u8>, p: int) {
    if 0 <= p < b.len() {
        let t = b[p];
        if t != 0 && t != 255 {
            lemma_setbits_bounds(t, 0);
            lemma_setbits_positive(t);
        }
    }
}

/// The words encoded by the whole packed stream `b`.
pub open spec fn spec_unpack(b: Seq<u8>) -> Option<Seq<u8>> {
    spec_unpack_from(b, 0)
}

/// Every word inside a zero run is an all-zero word.
proof fn lemma_zero_run_chars(s: Seq<u8>, wi: int, max: int)
    requires
        0 <= wi,
    ensures
        forall|j: int| wi <= j < wi + zero_run(s, wi, max) ==> tag_of(word_at(s, j)) == 0,
    decreases max,
{
    if !(max <= 0 || wi < 0 || wi >= word_count(s) || tag_of(word_at(s, wi)) != 0) {
        lemma_zero_run_chars(s, wi + 1, max - 1);
    }
}

/// Unpacking looks only at the bytes from the current position on.
proof fn lemma_unpack_local(b: Seq<u8>, p: int)
    requires
        0 <= p <= b.len(),
    ensures
        spec_unpack_from(b, p) == spec_unpack_from(b.subrange(p, b.len() as int), 0),
    decreases b.len() - p,
{
    let b2 = b.subrange(p, b.len() as int);
    if p == b.len() {
        assert(b2.len() == 0);
    } else {
        let t = b[p];
        assert(b2[0] == t);
        if t == 0 {
            if p + 2 <= b.len() {
                assert(b2[1] == b[p + 1]);
                lemma_unpack_local(b, p + 2);
                lemma_unpack_local(b2, 2);
                assert(b.subrange(p + 2, b.len() as int) =~= b2.subrange(2, b2.len() as int));
            }
        } else if t == 255 {
            if p + 10 <= b.len() {
                assert(b2[9] == b[p + 9]);
                let k = b[p + 9] as int;
                if p + 10 + 8 * k <= b.len() {
                    lemma_unpack_local(b, p + 10 + 8 * k);
                    lemma_unpack_local(b2, 10 + 8 * k);
                    assert(b.subrange(p + 10 + 8 * k, b.len() as int) =~= b2.subrange(
                        10 + 8 * k,
                        b2.len() as int,
                    ));
                    assert(b.subrange(p + 1, p + 9) =~= b2.subrange(1, 9));
                    assert(b.subrange(p + 10, p + 10 + 8 * k) =~= b2.subrange(10, 10 + 8 * k));
                }
            }
        } else {
            let c = setbits_from(t, 0);
            lemma_setbits_bounds(t, 0);
            lemma_setbits_positive(t);
            if p + 1 + c <= b.len() {
                lemma_unpack_local(b, p + 1 + c);
                lemma_unpack_local(b2, 1 + c);
                assert(b.subrange(p + 1 + c, b.len() as int) =~= b2.subrange(
                    1 + c,
                    b2.len() as int,
                ));
                assert(b.subrange(p + 1, p + 1 + c) =~= b2.subrange(1, 1 + c));
            }
        }
    }
}

/// Unpacking a packed stream restores the original words exactly.
#[verifier::rlimit(100)]
#[verifier::spinoff_prover]
pub proof fn lemma_unpack_pack_from(s: Seq<u8>, wi: int)
    requires
        s.len() % 8 == 0,
        0 <= wi <= word_count(s),
    ensures
        spec_unpack_from(spec_pack_from(s, wi), 0) == Some(s.subrange(8 * wi, s.len() as int)),
    decreases word_count(s) - wi,
{
    let wc = word_count(s);
    vstd::arithmetic::div_mod::lemma_fundamental_div_mod(s.len() as int, 8);
    assert(s.len() as int == 8 * wc);
    let b = spec_pack_from(s, wi);
    if wi == wc {
        assert(b.len() == 0);
        assert(s.subrange(8 * wi, s.len() as int) =~= Seq::<u8>::empty());
    } else {
        let w = word_at(s, wi);
        let t = tag_of(w);
        if t == 0 {
            let z = zero_run(s, wi + 1, 255);
            lemma_zero_run_bounds(s, wi + 1, 255);
            let rest = spec_pack_from(s, wi + 1 + z);
            assert(b == seq![0u8, z as u8] + rest);
            assert(b[0] == 0u8);
            assert(b[1] == z as u8);
            assert(b[1] as int == z);
            lemma_unpack_local(b, 2);
            assert(b.subrange(2, b.len() as int) =~= rest);
            lemma_unpack_pack_from(s, wi + 1 + z);
            let tail = s.subrange(8 * (wi + 1 + z), s.len() as int);
            assert(spec_unpack_from(b, 0) == Some(zero_bytes(8 * (z + 1)) + tail));
            lemma_zero_run_chars(s, wi + 1, 255);
            lemma_tag_zero_word(w);
            assert(zero_bytes(8 * (z + 1)) + tail =~= s.subrange(8 * wi, s.len() as int)) by {
                let lhs = zero_bytes(8 * (z + 1)) + tail;
                assert forall|i: int| 0 <= i < lhs.len() implies lhs[i] == s.subrange(
                    8 * wi,
                    s.len() as int,
                )[i] by {
                    if i < 8 * (z + 1) {
                        let j = wi + i / 8;
                        let k = i % 8;
                        vstd::arithmetic::div_mod::lemma_fundamental_div_mod(i, 8);
                        assert(wi <= j < wi + 1 + z);
                        if j > wi {
                            assert(tag_of(word_at(s, j)) == 0);
                        }
                        lemma_tag_zero_word(word_at(s, j));
                        assert(word_at(s, j)[k] == 0);
                        assert(word_at(s, j)[k] == s[8 * j + k]);
                        assert(8 * j + k == 8 * wi + i);
                    }
                }
            }
        } else if t == 255 {
            let k = literal_run(s, wi + 1, 255);
            lemma_literal_run_bounds(s, wi + 1, 255);
            let lit = s.subrange(8 * (wi + 1), 8 * (wi + 1 + k));
            let rest = spec_pack_from(s, wi + 1 + k);
            assert(b == seq![255u8] + w + seq![k as u8] + lit + rest);
            assert(b.len() == 10 + 8 * k + rest.len());
            assert(b[0] == 255u8);
            assert(b[9] == k as u8);
            assert(b[9] as int == k);
            assert(b.subrange(1, 9) =~= w);
            assert(b.subrange(10, 10 + 8 * k) =~= lit);
            lemma_unpack_local(b, 10 + 8 * k);
            assert(b.subrange(10 + 8 * k, b.len() as int) =~= rest);
            lemma_unpack_pack_from(s, wi + 1 + k);
            let tail = s.subrange(8 * (wi + 1 + k), s.len() as int);
            assert(spec_unpack_from(b, 0) == Some(w + lit + tail));
            assert(w + lit + tail =~= s.subrange(8 * wi, s.len() as int));
        } else {
            let nz = nz_bytes(w);
            lemma_word_roundtrip(w);
            let c = setbits_from(t, 0);
            assert(c == nz.len());
            lemma_setbits_bounds(t, 0);
            lemma_setbits_positive(t);
            let rest = spec_pack_from(s, wi + 1);
            assert(b == seq![t] + nz + rest);
            assert(b[0] == t);
            assert(b.subrange(1, 1 + c) =~= nz);
            lemma_unpack_local(b, 1 + c);
            assert(b.subrange(1 + c, b.len() as int) =~= rest);
            lemma_unpack_pack_from(s, wi + 1);
            let tail = s.subrange(8 * (wi + 1), s.len() as int);
            assert(spec_unpack_from(b, 0) == Some(w + tail));
            assert(w + tail =~= s.subrange(8 * wi, s.len() as int));
        }
    }
}

/// The bytes of an all-zero word span of `s`.
proof fn lemma_zero_span(s: Seq<u8>, wi: int, z: int)
    requires
        s.len() % 8 == 0,
        0 <= wi,
        wi + 1 + z <= word_count(s),
        0 <= z,
        forall|j: int| wi <= j < wi + 1 + z ==> tag_of(word_at(s, j)) == 0,
    ensures
        zero_bytes(8 * (z + 1)) == s.subrange(8 * wi, 8 * (wi + 1 + z)),
{
    vstd::arithmetic::div_mod::lemma_fundamental_div_mod(s.len() as int, 8);
    assert(zero_bytes(8 * (z + 1)) =~= s.subrange(8 * wi, 8 * (wi + 1 + z))) by {
        assert forall|i: int| 0 <= i < 8 * (z + 1) implies #[trigger] s.subrange(
            8 * wi,
            8 * (wi + 1 + z),
        )[i] == 0u8 by {
            let j = wi + i / 8;
            let kk = i % 8;
            vstd::arithmetic::div_mod::lemma_fundamental_div_mod(i, 8);
            assert(wi <= j < wi + 1 + z);
            assert(tag_of(word_at(s, j)) == 0);
            lemma_tag_zero_word(word_at(s, j));
            assert(word_at(s, j)[kk] == 0);
            assert(word_at(s, j)[kk] == s[8 * j + kk]);
            assert(8 * j + kk == 8 * wi + i);
        }
    }
}

/// Unpacking a strict prefix of a packed stream fails, or restores a
/// strictly shorter prefix of the words (at least one word is missing).
#[verifier::rlimit(100)]
#[verifier::spinoff_prover]
pub proof fn lemma_unpack_pack_prefix(s: Seq<u8>, wi: int, k: int)
    requires
        s.len() % 8 == 0,
        0 <= wi <= word_count(s),
        0 <= k < spec_pack_from(s, wi).len(),
    ensures
        spec_unpack_from(spec_pack_from(s, wi).take(k), 0) matches Some(u) ==> (u.len() <= s.len()
            - 8 * wi - 8 && u == s.subrange(8 * wi, 8 * wi + u.len())),
    decreases word_count(s) - wi,
{
    let wc = word_count(s);
    vstd::arithmetic::div_mod::lemma_fundamental_div_mod(s.len() as int, 8);
    assert(s.len() as int == 8 * wc);
    let b = spec_pack_from(s, wi);
    assert(wi < wc);
    let p = b.take(k);
    if k == 0 {
        assert(p.len() == 0);
        assert(spec_unpack_from(p, 0) == Some(Seq::<u8>::empty()));
        assert(Seq::<u8>::empty() =~= s.subrange(8 * wi, 8 * wi));
    } else {
        let w = word_at(s, wi);
        let t = tag_of(w);
        if t == 0 {
            let z = zero_run(s, wi + 1, 255);
            lemma_zero_run_bounds(s, wi + 1, 255);
            let rest = spec_pack_from(s, wi + 1 + z);
            assert(b == seq![0u8, z as u8] + rest);
            assert(p[0] == 0u8);
            if k == 1 {
                assert(spec_unpack_from(p, 0) is None);
            } else {
                assert(p[1] == z as u8);
                lemma_unpack_local(p, 2);
                assert(p.subrange(2, p.len() as int) =~= rest.take(k - 2));
                lemma_unpack_pack_prefix(s, wi + 1 + z, k - 2);
                let o2 = spec_unpack_from(rest.take(k - 2), 0);
                if o2 is Some {
                    let u2 = o2->Some_0;
                    lemma_zero_run_chars(s, wi + 1, 255);
                    lemma_tag_zero_word(w);
                    lemma_zero_span(s, wi, z as int);
                    let u = zero_bytes(8 * (z + 1)) + u2;
                    assert(spec_unpack_from(p, 0) == Some(u));
                    assert(u =~= s.subrange(8 * wi, 8 * wi + u.len()));
                }
            }
        } else if t == 255 {
            let kk = literal_run(s, wi + 1, 255);
            lemma_literal_run_bounds(s, wi + 1, 255);
            let lit = s.subrange(8 * (wi + 1), 8 * (wi + 1 + kk));
            let rest = spec_pack_from(s, wi + 1 + kk);
            assert(b == seq![255u8] + w + seq![kk as u8] + lit + rest);
            assert(p[0] == 255u8);
            if k < 10 {
                assert(spec_unpack_from(p, 0) is None);
            } else {
                assert(p[9] == kk as u8);
                if k < 10 + 8 * kk {
                    assert(spec_unpack_from(p, 0) is None);
                } else {
                    assert(p.subrange(1, 9) =~= w);
                    assert(p.subrange(10, 10 + 8 * kk) =~= lit);
                    lemma_unpack_local(p, 10 + 8 * kk);
                    assert(p.subrange(10 + 8 * kk, p.len() as int) =~= rest.take(k - 10 - 8 * kk));
                    lemma_unpack_pack_prefix(s, wi + 1 + kk, k - 10 - 8 * kk);
                    let o2 = spec_unpack_from(rest.take(k - 10 - 8 * kk), 0);
                    if o2 is Some {
                        let u2 = o2->Some_0;
                        let u = w + lit + u2;
                        assert(spec_unpack_from(p, 0) == Some(u));
                        assert(u =~= s.subrange(8 * wi, 8 * wi + u.len()));
                    }
                }
            }
        } else {
            let nz = nz_bytes(w);
            lemma_word_roundtrip(w);
            let c = setbits_from(t, 0);
            lemma_setbits_bounds(t, 0);
            lemma_setbits_positive(t);
            let rest = spec_pack_from(s, wi + 1);
            assert(b == seq![t] + nz + rest);
            assert(p[0] == t);
            if k < 1 + c {
                assert(spec_unpack_from(p, 0) is None);
            } else {
                assert(p.subrange(1, 1 + c) =~= nz);
                lemma_unpack_local(p, 1 + c);
                assert(p.subrange(1 + c, p.len() as int) =~= rest.take(k - 1 - c));
                lemma_unpack_pack_prefix(s, wi + 1, k - 1 - c);
                let o2 = spec_unpack_from(rest.take(k - 1 - c), 0);
                if o2 is Some {
                    let u2 = o2->Some_0;
                    let u = w + u2;
                    assert(spec_unpack_from(p, 0) == Some(u));
                    assert(u =~= s.subrange(8 * wi, 8 * wi + u.len()));
                }
            }
        }
    }
}

/// Packing then unpacking gives the original stream back.
pub proof fn lemma_pack_roundtrip(s: Seq<u8>)
    requires
        s.len() % 8 == 0,
    ensures
        spec_unpack(spec_pack(s)) == Some(s),
{
    lemma_unpack_pack_from(s, 0);
    assert(s.subrange(0, s.len() as int) =~= s);
}

/// A word with mask zero is all zero bytes.
pub proof fn lemma_tag_zero_word(w: Seq<u8>)
    requires
        w.len() == 8,
        tag_of(w) == 0,
    ensures
        forall|k: int| 0 <= k < 8 ==> w[k] == 0,
{
    lemma_tag_bits(w);
    assert forall|k: int| 0 <= k < 8 implies w[k] == 0 by {
        assert(bit_of(0u8, k) == ((0nat / pow2_8(k)) % 2 == 1));
        assert(pow2_8(k) >= 1);
        assert(0nat / pow2_8(k) == 0);
    }
}

fn pow2_u8(k: usize) -> (r: u8)
    requires
        k < 8,
    ensures
        r as nat == pow2_8(k as int),
{
    if k == 0 {
        1
    } else if k == 1 {
        2
    } else if k == 2 {
        4
    } else if k == 3 {
        8
    } else if k == 4 {
        16
    } else if k == 5 {
        32
    } else if k == 6 {
        64
    } else {
        128
    }
}

#[verifier::rlimit(50)]
#[verifier::spinoff_prover]
fn word_tag(s: &Vec<u8>, wi: usize) -> (t: u8)
    requires
        8 * wi + 8 <= s@.len(),
    ensures
        t == tag_of(word_at(s@, wi as int)),
{
    let n = s.len();
    assert(8 * wi + 8 <= n);
    let o = 8 * wi;
    let mut t: u8 = 0;
    if s[o] != 0 {
        t = t + 1;
    }
    if s[o + 1] != 0 {
        t = t + 2;
    }
    if s[o + 2] != 0 {
        t = t + 4;
    }
    if s[o + 3] != 0 {
        t = t + 8;
    }
    if s[o + 4] != 0 {
        t = t + 16;
    }
    if s[o + 5] != 0 {
        t = t + 32;
    }
    if s[o + 6] != 0 {
        t = t + 64;
    }
    if s[o + 7] != 0 {
        t = t + 128;
    }
    proof {
        let w = word_at(s@, wi as int);
        assert(forall|k: int| 0 <= k < 8 ==> w[k] == s@[8 * wi + k]);
    }
    t
}

#[verifier::rlimit(50)]
#[verifier::spinoff_prover]
fn word_zeros(s: &Vec<u8>, wi: usize) -> (z: u8)
    requires
        8 * wi + 8 <= s@.len(),
    ensures
        z as int == zero_byte_count(word_at(s@, wi as int)),
{
    let n = s.len();
    assert(8 * wi + 8 <= n);
    let o = 8 * wi;
    let mut z: u8 = 0;
    if s[o] == 0 {
        z = z + 1;
    }
    if s[o + 1] == 0 {
        z = z + 1;
    }
    if s[o + 2] == 0 {
        z = z + 1;
    }
    if s[o + 3] == 0 {
        z = z + 1;
    }
    if s[o + 4] == 0 {
        z = z + 1;
    }
    if s[o + 5] == 0 {
        z = z + 1;
    }
    if s[o + 6] == 0 {
        z = z + 1;
    }
    if s[o + 7] == 0 {
        z = z + 1;
    }
    proof {
        let w = word_at(s@, wi as int);
        assert(forall|k: int| 0 <= k < 8 ==> w[k] == s@[8 * wi + k]);
    }
    z
}

/// Applies the packing transform to a word-aligned stream.
pub fn pack(input: &Vec<u8>) -> (out: Vec<u8>)
    requires
        input@.len() % 8 == 0,
    ensures
        out@ == spec_pack(input@),
{
    let s = Ghost(input@);
    let n = input.len();
    let wc = n / 8;
    proof {
        vstd::arithmetic::div_mod::lemma_fundamental_div_mod(n as int, 8);
        assert(n == 8 * wc);
    }
    let mut out: Vec<u8> = Vec::new();
    let mut i: usize = 0;
    while i < wc
        invariant
            s@ == input@,
            n == input@.len(),
            n == 8 * wc,
            i <= wc,
            word_count(s@) == wc,
            spec_pack(s@) == out@ + spec_pack_from(s@, i as int),
        decreases wc - i,
    {
        let ghost o0 = out@;
        let t = word_tag(input, i);
        let ghost w = word_at(s@, i as int);
        if t == 0 {
            let mut z: usize = 0;
            while z < 255 && i + 1 + z < wc && word_tag(input, i + 1 + z) == 0
                invariant
                    s@ == input@,
                    n == input@.len(),
                    n == 8 * wc,
                    i < wc,
                    word_count(s@) == wc,
                    z <= 255,
                    i + 1 + z <= wc,
                    forall|j: int|
                        i + 1 <= j < i + 1 + z ==> tag_of(word_at(s@, j)) == 0,
                decreases 255 - z,
            {
                z = z + 1;
            }
            proof {
                lemma_zero_run_eq(s@, i as int + 1, 255, z as int);
            }
            out.push(0u8);
            out.push(z as u8);
            proof {
                let block = seq![0u8, z as u8];
                assert(out@ =~= o0 + block);
                assert(spec_pack_from(s@, i as int) == block + spec_pack_from(
                    s@,
                    i as int + 1 + z,
                ));
                assert((o0 + block) + spec_pack_from(s@, i as int + 1 + z) =~= o0 + (block
                    + spec_pack_from(s@, i as int + 1 + z)));
            }
            i = i + 1 + z;
        } else if t == 255 {
            let mut k: usize = 0;
            while k < 255 && i + 1 + k < wc && word_zeros(input, i + 1 + k) < 2
                invariant
                    s@ == input@,
                    n == input@.len(),
                    n == 8 * wc,
                    i < wc,
                    word_count(s@) == wc,
                    k <= 255,
                    i + 1 + k <= wc,
                    forall|j: int|
                        i + 1 <= j < i + 1 + k ==> zero_byte_count(word_at(s@, j)) < 2,
                decreases 255 - k,
            {
                k = k + 1;
            }
            proof {
                lemma_literal_run_eq(s@, i as int + 1, 255, k as int);
            }
            out.push(255u8);
            push_range(&mut out, input, 8 * i, 8);
            out.push(k as u8);
            push_range(&mut out, input, 8 * (i + 1), 8 * k);
            proof {
                let lit = s@.subrange(8 * (i as int + 1), 8 * (i as int + 1 + k));
                let block = seq![255u8] + w + seq![k as u8] + lit;
                assert(out@ =~= o0 + block);
                assert(spec_pack_from(s@, i as int) == block + spec_pack_from(
                    s@,
                    i as int + 1 + k,
                ));
                assert((o0 + block) + spec_pack_from(s@, i as int + 1 + k) =~= o0 + (block
                    + spec_pack_from(s@, i as int + 1 + k)));
            }
            i = i + 1 + k;
        } else {
            out.push(t);
            let mut k: usize = 0;
            while k < 8
                invariant
                    s@ == input@,
                    n == input@.len(),
                    n == 8 * wc,
                    i < wc,
                    word_count(s@) == wc,
                    k <= 8,
                    w == word_at(s@, i as int),
                    out@ + nz_from(w, k as int) == (o0 + seq![t]) + nz_bytes(w),
                decreases 8 - k,
            {
                let ghost oprev = out@;
                if input[8 * i + k] != 0 {
                    out.push(input[8 * i + k]);
                }
                proof {
                    assert(w[k as int] == s@[8 * i + k]);
                    if w[k as int] != 0 {
                        assert(out@ =~= oprev + seq![w[k as int]]);
                        assert((oprev + seq![w[k as int]]) + nz_from(w, k as int + 1) =~= oprev
                            + nz_from(w, k as int));
                    } else {
                        assert(nz_from(w, k as int) =~= nz_from(w, k as int + 1));
                    }
                }
                k = k + 1;
            }
            proof {
                assert(nz_from(w, 8) =~= Seq::<u8>::empty());
                assert(out@ + nz_from(w, 8) =~= out@);
                let block = seq![t] + nz_bytes(w);
                assert(out@ =~= o0 + block);
                assert(spec_pack_from(s@, i as int) == block + spec_pack_from(s@, i as int + 1));
                assert((o0 + block) + spec_pack_from(s@, i as int + 1) =~= o0 + (block
                    + spec_pack_from(s@, i as int + 1)));
            }
            i = i + 1;
        }
    }
    proof {
        assert(spec_pack_from(s@, wc as int) =~= Seq::<u8>::empty());
        assert(out@ + spec_pack_from(s@, wc as int) =~= out@);
    }
    out
}

/// `o` with `a` prepended to its contents.
pub open spec fn opt_prefixed(a: Seq<u8>, o: Option<Seq<u8>>) -> Option<Seq<u8>> {
    match o {
        Some(r) => Some(a + r),
        None => None,
    }
}

/// Reverses the packing transform; `None` when the stream is truncated or
/// otherwise not a whole packed stream.
pub fn unpack(b: &Vec<u8>) -> (out: Option<Vec<u8>>)
    ensures
        out matches Some(v) ==> spec_unpack(b@) == Some(v@),
        out is None ==> spec_unpack(b@) is None,
{
    let n = b.len();
    let mut acc: Vec<u8> = Vec::new();
    let mut p: usize = 0;
    proof {
        let o = spec_unpack_from(b@, 0);
        if o is Some {
            assert(Seq::<u8>::empty() + o->Some_0 =~= o->Some_0);
        }
    }
    while p < n
        invariant
            n == b@.len(),
            p <= n,
            spec_unpack(b@) == opt_prefixed(acc@, spec_unpack_from(b@, p as int)),
        decreases n - p,
    {
        let ghost a0 = acc@;
        let t = b[p];
        if t == 0 {
            if n - p < 2 {
                return None;
            }
            let z = b[p + 1] as usize;
            push_zero_bytes(&mut acc, 8 * (z + 1));
            proof {
                let o2 = spec_unpack_from(b@, p as int + 2);
                assert(spec_unpack_from(b@, p as int) == opt_prefixed(
                    zero_bytes(8 * (z as int + 1)),
                    o2,
                ));
                if o2 is Some {
                    assert((a0 + zero_bytes(8 * (z as int + 1))) + o2->Some_0 =~= a0 + (zero_bytes(
                        8 * (z as int + 1),
                    ) + o2->Some_0));
                }
            }
            p = p + 2;
        } else if t == 255 {
            if n - p < 10 {
                return None;
            }
            let k = b[p + 9] as usize;
            if 8 * k > n - (p + 10) {
                return None;
            }
            push_range(&mut acc, b, p + 1, 8);
            push_range(&mut acc, b, p + 10, 8 * k);
            proof {
                let wd = b@.subrange(p as int + 1, p as int + 9);
                let lit = b@.subrange(p as int + 10, p as int + 10 + 8 * k as int);
                let o2 = spec_unpack_from(b@, p as int + 10 + 8 * k as int);
                assert(spec_unpack_from(b@, p as int) == opt_prefixed(wd + lit, o2));
                assert(acc@ =~= a0 + (wd + lit));
                if o2 is Some {
                    assert((a0 + (wd + lit)) + o2->Some_0 =~= a0 + ((wd + lit) + o2->Some_0));
                }
            }
            p = p + 10 + 8 * k;
        } else {
            let mut c: usize = 0;
            let mut k: usize = 0;
            while k < 8
                invariant
                    k <= 8,
                    c <= 8,
                    c == setbits_from(t, 0) - setbits_from(t, k as int),
                decreases 8 - k,
            {
                let pk = pow2_u8(k);
                if (t / pk) % 2 == 1 {
                    proof {
                        lemma_setbits_bounds(t, 0);
                        lemma_setbits_bounds(t, k as int + 1);
                    }
                    c = c + 1;
                }
                k = k + 1;
            }
            proof {
                lemma_setbits_bounds(t, 0);
                lemma_setbits_positive(t);
                assert(c == setbits_from(t, 0));
            }
            if c > n - (p + 1) {
                return None;
            }
            let ghost taken = b@.subrange(p as int + 1, p as int + 1 + c as int);
            let mut k2: usize = 0;
            let mut j: usize = 0;
            proof {
                assert(taken.skip(0) =~= taken);
            }
            while k2 < 8
                invariant
                    n == b@.len(),
                    p < n,
                    p + 1 + c <= n,
                    c == setbits_from(t, 0),
                    c <= 8,
                    k2 <= 8,
                    taken == b@.subrange(p as int + 1, p as int + 1 + c as int),
                    j + setbits_from(t, k2 as int) == c,
                    acc@ + rebuild_from(t, taken.skip(j as int), k2 as int) == a0 + rebuild_from(
                        t,
                        taken,
                        0,
                    ),
                decreases 8 - k2,
            {
                let ghost aprev = acc@;
                let pk = pow2_u8(k2);
                if (t / pk) % 2 == 1 {
                    proof {
                        lemma_setbits_bounds(t, k2 as int + 1);
                        assert(setbits_from(t, k2 as int) >= 1);
                        assert(j < c);
                    }
                    acc.push(b[p + 1 + j]);
                    proof {
                        let rem = taken.skip(j as int);
                        assert(rem[0] == taken[j as int]);
                        assert(taken[j as int] == b@[p as int + 1 + j]);
                        assert(rem.skip(1) =~= taken.skip(j as int + 1));
                        assert(rebuild_from(t, rem, k2 as int) == seq![rem[0]] + rebuild_from(
                            t,
                            taken.skip(j as int + 1),
                            k2 as int + 1,
                        ));
                        assert((aprev + seq![rem[0]]) + rebuild_from(
                            t,
                            taken.skip(j as int + 1),
                            k2 as int + 1,
                        ) =~= aprev + rebuild_from(t, rem, k2 as int));
                    }
                    j = j + 1;
                } else {
                    acc.push(0u8);
                    proof {
                        let rem = taken.skip(j as int);
                        assert(rebuild_from(t, rem, k2 as int) == seq![0u8] + rebuild_from(
                            t,
                            rem,
                            k2 as int + 1,
                        ));
                        assert((aprev + seq![0u8]) + rebuild_from(t, rem, k2 as int + 1) =~= aprev
                            + rebuild_from(t, rem, k2 as int));
                    }
                }
                k2 = k2 + 1;
            }
            proof {
                assert(rebuild_from(t, taken.skip(j as int), 8) =~= Seq::<u8>::empty());
                assert(acc@ + rebuild_from(t, taken.skip(j as int), 8) =~= acc@);
                assert(acc@ == a0 + rebuild_from(t, taken, 0));
                let o2 = spec_unpack_from(b@, p as int + 1 + c as int);
                assert(spec_unpack_from(b@, p as int) == opt_prefixed(
                    rebuild_from(t, taken, 0),
                    o2,
                ));
                if o2 is Some {
                    assert((a0 + rebuild_from(t, taken, 0)) + o2->Some_0 =~= a0 + (rebuild_from(
                        t,
                        taken,
                        0,
                    ) + o2->Some_0));
                }
            }
            p = p + 1 + c;
        }
    }
    proof {
        assert(spec_unpack_from(b@, n as int) == Some(Seq::<u8>::empty()));
        assert(acc@ + Seq::<u8>::empty() =~= acc@);
    }
    Some(acc)
}

} // verus!
