use vstd::prelude::*;
use crate::words::le32_at;
use crate::words::le32_bytes;
use crate::words::lemma_le32_at_shift;
use crate::words::lemma_le32_roundtrip;
use crate::words::zero_bytes;

verus! {

broadcast use crate::words::lemma_le32_bytes_len;

// The pointer layer of a segment.  A segment is a run of 8-byte words.  A
// pointer word is two little-endian 32-bit halves: the low half holds a
// 2-bit kind (0 struct, 1 list) and a 30-bit signed word offset, counted
// from the word after the pointer to the target; the high half holds the
// target's shape.  For a struct: data-section words and pointer-section
// words.  For a list: a 3-bit element size code and a 29-bit count.  A list
// of structs (code 7) starts with a tag word, shaped like a struct pointer
// whose offset field carries the element count.  Text is a list of bytes
// (code 2) whose count includes a trailing zero byte.

/// Largest segment, in words, that the encoders will produce: every word
/// offset and count must fit its 29- or 30-bit field.
pub const MAX_SEG_WORDS: u64 = 0x1FFFFFFF;

/// Longest text (in bytes) a list pointer can describe, its terminator
/// included in the 29-bit count.
pub const MAX_TEXT_LEN: u64 = 0x1FFFFFFE;

/// Most seeds a seed list can describe.
pub const MAX_SEED_COUNT: u64 = 0x1FFFFFFF;

// ---------------------------------------------------------------------
// Reading pointer fields out of a segment.

/// Number of whole words of the segment.
pub open spec fn seg_words(seg: Seq<u8>) -> int {
    seg.len() as int / 8
}

/// Low 32-bit half of word `wi`.
pub open spec fn plo(seg: Seq<u8>, wi: int) -> nat {
    le32_at(seg, 8 * wi)
}

/// High 32-bit half of word `wi`.
pub open spec fn phi(seg: Seq<u8>, wi: int) -> nat {
    le32_at(seg, 8 * wi + 4)
}

/// Kind bits of the pointer at word `wi`.
pub open spec fn pkind(seg: Seq<u8>, wi: int) -> nat {
    plo(seg, wi) % 4
}

/// Raw 30-bit offset field of the pointer at word `wi`.
pub open spec fn praw(seg: Seq<u8>, wi: int) -> nat {
    plo(seg, wi) / 4
}

/// Signed word offset of the pointer at word `wi`.
pub open spec fn psoff(seg: Seq<u8>, wi: int) -> int {
    if praw(seg, wi) < 0x20000000 {
        praw(seg, wi) as int
    } else {
        praw(seg, wi) - 0x40000000
    }
}

/// Whether the pointer word `wi` is all zero (an absent field).
pub open spec fn pnull(seg: Seq<u8>, wi: int) -> bool {
    plo(seg, wi) == 0 && phi(seg, wi) == 0
}

/// Data-section size of the struct pointer at word `wi`.
pub open spec fn sdata(seg: Seq<u8>, wi: int) -> nat {
    phi(seg, wi) % 0x10000
}

/// Pointer-section size of the struct pointer at word `wi`.
pub open spec fn sptr(seg: Seq<u8>, wi: int) -> nat {
    phi(seg, wi) / 0x10000
}

/// Element-size code of the list pointer at word `wi`.
pub open spec fn lesz(seg: Seq<u8>, wi: int) -> nat {
    phi(seg, wi) % 8
}

/// Element count (or content word count) of the list pointer at word `wi`.
pub open spec fn lcnt(seg: Seq<u8>, wi: int) -> nat {
    phi(seg, wi) / 8
}

// ---------------------------------------------------------------------
// Building pointer words.

/// A struct pointer (or list tag word) with a non-negative offset field.
pub open spec fn struct_ptr_word(off: int, dsz: int, psz: int) -> Seq<u8> {
    le32_bytes((4 * off) as nat) + le32_bytes((dsz + 0x10000 * psz) as nat)
}

/// A list pointer with a non-negative offset field.
pub open spec fn list_ptr_word(off: int, esz: int, cnt: int) -> Seq<u8> {
    le32_bytes((4 * off + 1) as nat) + le32_bytes((esz + 8 * cnt) as nat)
}

/// Field values read back from a struct pointer word written at word `wi`.
#[verifier::rlimit(50)]
#[verifier::spinoff_prover]
pub proof fn lemma_struct_ptr_fields(seg: Seq<u8>, wi: int, off: int, dsz: int, psz: int)
    requires
        0 <= wi,
        8 * wi + 8 <= seg.len(),
        seg.subrange(8 * wi, 8 * wi + 8) == struct_ptr_word(off, dsz, psz),
        0 <= off < 0x20000000,
        0 <= dsz < 0x10000,
        0 <= psz < 0x10000,
    ensures
        plo(seg, wi) == 4 * off,
        phi(seg, wi) == dsz + 0x10000 * psz,
        pkind(seg, wi) == 0,
        praw(seg, wi) == off,
        psoff(seg, wi) == off,
        sdata(seg, wi) == dsz,
        sptr(seg, wi) == psz,
    {
    let w = struct_ptr_word(off, dsz, psz);
    let lo = (4 * off) as nat;
    let hi = (dsz + 0x10000 * psz) as nat;
    assert(hi < 0x100000000) by (nonlinear_arith)
        requires
            0 <= dsz < 0x10000,
            0 <= psz < 0x10000,
            hi == dsz + 0x10000 * psz,
    ;
    lemma_le32_roundtrip(lo);
    lemma_le32_roundtrip(hi);
    assert(le32_bytes(lo).len() == 4);
    assert(le32_bytes(hi).len() == 4);
    let sub = seg.subrange(8 * wi, 8 * wi + 8);
    assert(sub[0] == seg[8 * wi]);
    assert(sub[1] == seg[8 * wi + 1]);
    assert(sub[2] == seg[8 * wi + 2]);
    assert(sub[3] == seg[8 * wi + 3]);
    assert(sub[4] == seg[8 * wi + 4]);
    assert(sub[5] == seg[8 * wi + 5]);
    assert(sub[6] == seg[8 * wi + 6]);
    assert(sub[7] == seg[8 * wi + 7]);
    assert(sub[0] == le32_bytes(lo)[0]);
    assert(sub[1] == le32_bytes(lo)[1]);
    assert(sub[2] == le32_bytes(lo)[2]);
    assert(sub[3] == le32_bytes(lo)[3]);
    assert(sub[4] == le32_bytes(hi)[0]);
    assert(sub[5] == le32_bytes(hi)[1]);
    assert(sub[6] == le32_bytes(hi)[2]);
    assert(sub[7] == le32_bytes(hi)[3]);
    lemma_le32_at_shift(seg, le32_bytes(lo), 8 * wi, 0);
    lemma_le32_at_shift(seg, le32_bytes(hi), 8 * wi + 4, 0);
    assert(plo(seg, wi) == lo);
    assert(phi(seg, wi) == hi);
    assert(lo % 4 == 0 && lo / 4 == off) by (nonlinear_arith)
        requires
            0 <= off,
            lo == 4 * off,
    ;
    assert(hi % 0x10000 == dsz && hi / 0x10000 == psz) by (nonlinear_arith)
        requires
            0 <= dsz < 0x10000,
            0 <= psz,
            hi == dsz + 0x10000 * psz,
    ;
}

/// Field values read back from a list pointer word written at word `wi`.
#[verifier::rlimit(50)]
#[verifier::spinoff_prover]
pub proof fn lemma_list_ptr_fields(seg: Seq<u8>, wi: int, off: int, esz: int, cnt: int)
    requires
        0 <= wi,
        8 * wi + 8 <= seg.len(),
        seg.subrange(8 * wi, 8 * wi + 8) == list_ptr_word(off, esz, cnt),
        0 <= off < 0x20000000,
        0 <= esz < 8,
        0 <= cnt < 0x20000000,
    ensures
        plo(seg, wi) == 4 * off + 1,
        phi(seg, wi) == esz + 8 * cnt,
        pkind(seg, wi) == 1,
        praw(seg, wi) == off,
        psoff(seg, wi) == off,
        lesz(seg, wi) == esz,
        lcnt(seg, wi) == cnt,
        !pnull(seg, wi),
    {
    let w = list_ptr_word(off, esz, cnt);
    let lo = (4 * off + 1) as nat;
    let hi = (esz + 8 * cnt) as nat;
    assert(hi < 0x100000000) by (nonlinear_arith)
        requires
            0 <= esz < 8,
            0 <= cnt < 0x20000000,
            hi == esz + 8 * cnt,
    ;
    lemma_le32_roundtrip(lo);
    lemma_le32_roundtrip(hi);
    assert(le32_bytes(lo).len() == 4);
    assert(le32_bytes(hi).len() == 4);
    let sub = seg.subrange(8 * wi, 8 * wi + 8);
    assert(sub[0] == seg[8 * wi]);
    assert(sub[1] == seg[8 * wi + 1]);
    assert(sub[2] == seg[8 * wi + 2]);
    assert(sub[3] == seg[8 * wi + 3]);
    assert(sub[4] == seg[8 * wi + 4]);
    assert(sub[5] == seg[8 * wi + 5]);
    assert(sub[6] == seg[8 * wi + 6]);
    assert(sub[7] == seg[8 * wi + 7]);
    assert(sub[0] == le32_bytes(lo)[0]);
    assert(sub[1] == le32_bytes(lo)[1]);
    assert(sub[2] == le32_bytes(lo)[2]);
    assert(sub[3] == le32_bytes(lo)[3]);
    assert(sub[4] == le32_bytes(hi)[0]);
    assert(sub[5] == le32_bytes(hi)[1]);
    assert(sub[6] == le32_bytes(hi)[2]);
    assert(sub[7] == le32_bytes(hi)[3]);
    lemma_le32_at_shift(seg, le32_bytes(lo), 8 * wi, 0);
    lemma_le32_at_shift(seg, le32_bytes(hi), 8 * wi + 4, 0);
    assert(plo(seg, wi) == lo);
    assert(phi(seg, wi) == hi);
    assert(lo % 4 == 1 && lo / 4 == off) by (nonlinear_arith)
        requires
            0 <= off,
            lo == 4 * off + 1,
    ;
    assert(hi % 8 == esz && hi / 8 == cnt) by (nonlinear_arith)
        requires
            0 <= esz < 8,
            0 <= cnt,
            hi == esz + 8 * cnt,
    ;
}

// ---------------------------------------------------------------------
// Signed 32-bit scalars.

/// The unsigned 32-bit wire image of a signed 32-bit value.
pub open spec fn u32_of_i32(s: i32) -> nat {
    if s >= 0 {
        s as nat
    } else {
        (s + 0x100000000) as nat
    }
}

/// The signed 32-bit value of an unsigned 32-bit wire image.
pub open spec fn i32_of_u32(u: nat) -> i32 {
    if u < 0x80000000 {
        u as i32
    } else {
        (u - 0x100000000) as i32
    }
}

pub proof fn lemma_i32_roundtrip(s: i32)
    ensures
        u32_of_i32(s) < 0x100000000,
        i32_of_u32(u32_of_i32(s)) == s,
{
}

// ---------------------------------------------------------------------
// The laid-out segments of the two schemas.

/// Words occupied by a text of `t` bytes: the bytes, the terminator, and
/// zero padding to a word boundary.
pub open spec fn twords(t: Seq<u8>) -> int {
    (t.len() + 8) as int / 8
}

/// The padded wire image of a text.
pub open spec fn text_blob(t: Seq<u8>) -> Seq<u8> {
    t + seq![0u8] + zero_bytes(8 * twords(t) - t.len() - 1)
}

pub proof fn lemma_twords(t: Seq<u8>)
    ensures
        t.len() + 1 <= 8 * twords(t) <= t.len() + 8,
        text_blob(t).len() == 8 * twords(t),
{
    vstd::arithmetic::div_mod::lemma_fundamental_div_mod((t.len() + 8) as int, 8);
}

/// Total words of the text blobs of entries `0..i`.
pub open spec fn tsum(es: Seq<(Seq<u8>, Seq<u8>)>, i: int) -> int
    decreases i,
{
    if i <= 0 {
        0
    } else {
        tsum(es, i - 1) + twords(es[i - 1].0) + twords(es[i - 1].1)
    }
}

pub proof fn lemma_tsum_next(es: Seq<(Seq<u8>, Seq<u8>)>, i: int)
    requires
        0 <= i,
    ensures
        tsum(es, i + 1) == tsum(es, i) + twords(es[i].0) + twords(es[i].1),
{
}

pub proof fn lemma_tsum_bounds(es: Seq<(Seq<u8>, Seq<u8>)>, i: int, j: int)
    requires
        0 <= i <= j,
    ensures
        tsum(es, i) <= tsum(es, j),
        2 * i <= tsum(es, i),
    decreases j - i, i,
{
    if i < j {
        lemma_tsum_bounds(es, i, j - 1);
        lemma_twords(es[j - 1].0);
        lemma_twords(es[j - 1].1);
    } else if i > 0 {
        lemma_tsum_bounds(es, i - 1, i - 1);
        lemma_twords(es[i - 1].0);
        lemma_twords(es[i - 1].1);
    }
}

/// The two text pointers of each of the entries `j..`, in element order.
/// The offsets step over the later elements' pointers and the earlier
/// entries' text blobs, so they do not depend on where the list lies.
pub open spec fn elem_ptr_words(es: Seq<(Seq<u8>, Seq<u8>)>, j: int) -> Seq<u8>
    decreases es.len() - j,
{
    let n = es.len() as int;
    if j < 0 || j >= n {
        Seq::empty()
    } else {
        let koff = 2 * (n - j) - 1 + tsum(es, j);
        let voff = 2 * (n - j) - 2 + tsum(es, j) + twords(es[j].0);
        list_ptr_word(koff, 2, es[j].0.len() + 1 as int) + list_ptr_word(voff, 2, es[j].1.len() + 1 as int)
            + elem_ptr_words(es, j + 1)
    }
}

/// The text blobs of the entries `j..`, key then value, in element order.
pub open spec fn text_blobs(es: Seq<(Seq<u8>, Seq<u8>)>, j: int) -> Seq<u8>
    decreases es.len() - j,
{
    let n = es.len() as int;
    if j < 0 || j >= n {
        Seq::empty()
    } else {
        text_blob(es[j].0) + text_blob(es[j].1) + text_blobs(es, j + 1)
    }
}

pub proof fn lemma_elem_ptr_words_len(es: Seq<(Seq<u8>, Seq<u8>)>, j: int)
    requires
        0 <= j <= es.len(),
    ensures
        elem_ptr_words(es, j).len() == 16 * (es.len() - j),
    decreases es.len() - j,
{
    if j < es.len() {
        lemma_elem_ptr_words_len(es, j + 1);
    }
}

pub proof fn lemma_text_blobs_len(es: Seq<(Seq<u8>, Seq<u8>)>, j: int)
    requires
        0 <= j <= es.len(),
    ensures
        text_blobs(es, j).len() == 8 * (tsum(es, es.len() as int) - tsum(es, j)),
    decreases es.len() - j,
{
    if j < es.len() {
        lemma_text_blobs_len(es, j + 1);
        lemma_tsum_next(es, j);
        lemma_twords(es[j].0);
        lemma_twords(es[j].1);
    } else {
        lemma_tsum_bounds(es, 0, j);
    }
}

/// The segment of an array message: a root pointer, the root struct's one
/// list pointer, the entry list's tag word, the element pointers, and the
/// text blobs.
pub open spec fn array_seg(es: Seq<(Seq<u8>, Seq<u8>)>) -> Seq<u8> {
    let n = es.len() as int;
    struct_ptr_word(0, 0, 1) + list_ptr_word(0, 7, 2 * n) + struct_ptr_word(n, 0, 2)
        + elem_ptr_words(es, 0) + text_blobs(es, 0)
}

/// Total words of an array segment.
pub open spec fn array_seg_words(es: Seq<(Seq<u8>, Seq<u8>)>) -> int {
    3 + 2 * es.len() + tsum(es, es.len() as int)
}

pub proof fn lemma_array_seg_len(es: Seq<(Seq<u8>, Seq<u8>)>)
    ensures
        array_seg(es).len() == 8 * array_seg_words(es),
{
    lemma_elem_ptr_words_len(es, 0);
    lemma_text_blobs_len(es, 0);
}

/// Word count of the content of a seed list of `ns` seeds (two per word).
pub open spec fn swords(ns: int) -> int {
    (ns + 1) / 2
}

/// The wire image of the seed list content from seed `i` on: each pair of
/// seeds shares a word; a trailing odd seed is padded with zero.
pub open spec fn seed_words(seeds: Seq<i32>, i: int) -> Seq<u8>
    decreases seeds.len() + 2 - i,
{
    let ns = seeds.len() as int;
    if i < 0 || i >= ns {
        Seq::empty()
    } else {
        le32_bytes(u32_of_i32(seeds[i])) + (if i + 1 < ns {
            le32_bytes(u32_of_i32(seeds[i + 1]))
        } else {
            le32_bytes(0)
        }) + seed_words(seeds, i + 2)
    }
}

pub proof fn lemma_seed_words_len(seeds: Seq<i32>, i: int)
    requires
        0 <= i <= seeds.len(),
    ensures
        seed_words(seeds, i).len() == 8 * ((seeds.len() - i + 1) / 2),
    decreases seeds.len() + 2 - i,
{
    let ns = seeds.len() as int;
    if i < ns {
        if i + 2 <= ns {
            lemma_seed_words_len(seeds, i + 2);
        } else {
            assert(seed_words(seeds, i + 2) =~= Seq::<u8>::empty());
        }
    }
}

/// The segment of a hash-table message: a root pointer, the root struct's
/// data word (the two scalars), its two list pointers, then the entry list
/// (tag, element pointers, text blobs) and the seed list content.
pub open spec fn chd_seg(es: Seq<(Seq<u8>, Seq<u8>)>, seeds: Seq<i32>, m: i32, r: i32) -> Seq<
    u8,
> {
    let n = es.len() as int;
    let ns = seeds.len() as int;
    struct_ptr_word(0, 1, 2) + (le32_bytes(u32_of_i32(m)) + le32_bytes(u32_of_i32(r)))
        + list_ptr_word(1, 7, 2 * n) + list_ptr_word(1 + 2 * n + tsum(es, n), 4, ns)
        + struct_ptr_word(n, 0, 2) + elem_ptr_words(es, 0) + text_blobs(es, 0) + seed_words(
        seeds,
        0,
    )
}

/// Total words of a hash-table segment.
pub open spec fn chd_seg_words(es: Seq<(Seq<u8>, Seq<u8>)>, seeds: Seq<i32>) -> int {
    5 + 2 * es.len() + tsum(es, es.len() as int) + swords(seeds.len() as int)
}

pub proof fn lemma_chd_seg_len(es: Seq<(Seq<u8>, Seq<u8>)>, seeds: Seq<i32>, m: i32, r: i32)
    ensures
        chd_seg(es, seeds, m, r).len() == 8 * chd_seg_words(es, seeds),
{
    lemma_elem_ptr_words_len(es, 0);
    lemma_text_blobs_len(es, 0);
    lemma_seed_words_len(seeds, 0);
}

// ---------------------------------------------------------------------
// Encoder limits: what the count and offset fields can carry.

/// Every text of every entry fits a list pointer's count field.
pub open spec fn texts_fit(es: Seq<(Seq<u8>, Seq<u8>)>) -> bool {
    forall|i: int|
        0 <= i < es.len() ==> es[i].0.len() <= MAX_TEXT_LEN && es[i].1.len() <= MAX_TEXT_LEN
}

/// Whether an array value is representable: texts fit their count fields
/// and the whole segment fits every offset field.
pub open spec fn fits_array(es: Seq<(Seq<u8>, Seq<u8>)>) -> bool {
    texts_fit(es) && array_seg_words(es) <= MAX_SEG_WORDS
}

/// Whether a hash-table value is representable.
pub open spec fn fits_hash_table(es: Seq<(Seq<u8>, Seq<u8>)>, seeds: Seq<i32>) -> bool {
    texts_fit(es) && seeds.len() <= MAX_SEED_COUNT && chd_seg_words(es, seeds) <= MAX_SEG_WORDS
}

} // verus!
