use vstd::prelude::*;
use crate::decode::entry_list_reach;
use crate::decode::entry_texts_ok;
use crate::decode::read_entry_list;
use crate::decode::read_seed_list;
use crate::decode::seed_list_reach;
use crate::decode::spec_open_array;
use crate::decode::spec_open_hash_table;
use crate::decode::spec_open_hash_table_seg;
use crate::decode::spec_open_array_seg;
use crate::decode::text_ok;
use crate::decode::text_reach;
use crate::decode::text_val;
use crate::decode::texts_reach;
use crate::encode::encode_array_bytes;
use crate::encode::encode_hash_table_bytes;
use crate::framing::lemma_frame_roundtrip;
use crate::framing::spec_deframe;
use crate::framing::spec_frame;
use crate::layout::MAX_SEG_WORDS;
use crate::layout::array_seg;
use crate::layout::array_seg_words;
use crate::layout::chd_seg;
use crate::layout::chd_seg_words;
use crate::layout::fits_hash_table;
use crate::layout::i32_of_u32;
use crate::layout::lemma_chd_seg_len;
use crate::layout::lemma_i32_roundtrip;
use crate::layout::lemma_seed_words_len;
use crate::layout::seed_words;
use crate::layout::swords;
use crate::layout::u32_of_i32;
use crate::layout::elem_ptr_words;
use crate::layout::fits_array;
use crate::layout::lemma_array_seg_len;
use crate::layout::lemma_elem_ptr_words_len;
use crate::layout::lemma_list_ptr_fields;
use crate::layout::lemma_struct_ptr_fields;
use crate::layout::lemma_text_blobs_len;
use crate::layout::lemma_tsum_bounds;
use crate::layout::lemma_tsum_next;
use crate::layout::lemma_twords;
use crate::layout::list_ptr_word;
use crate::layout::lcnt;
use crate::layout::phi;
use crate::layout::pkind;
use crate::layout::plo;
use crate::layout::pnull;
use crate::layout::psoff;
use crate::layout::seg_words;
use crate::layout::struct_ptr_word;
use crate::layout::text_blob;
use crate::layout::text_blobs;
use crate::layout::texts_fit;
use crate::layout::tsum;
use crate::layout::twords;
use crate::packing::lemma_pack_roundtrip;
use crate::packing::lemma_unpack_pack_prefix;
use crate::packing::spec_pack;
use crate::words::le32_at;
use crate::words::le32_bytes;
use crate::words::lemma_le32_at_shift;
use crate::words::lemma_le32_roundtrip;
use crate::packing::spec_unpack;
use crate::records::DecodeError;

verus! {

broadcast use crate::words::lemma_le32_bytes_len;

// The round-trip laws: decoding what the encoders produced gives the
// original value back, and a message of one schema is refused by the other
// schema's decoder.

proof fn lemma_concat_sub_left(a: Seq<u8>, b: Seq<u8>, x: int, y: int)
    requires
        0 <= x <= y <= a.len(),
    ensures
        (a + b).subrange(x, y) == a.subrange(x, y),
{
    assert((a + b).subrange(x, y) =~= a.subrange(x, y));
}

proof fn lemma_concat_sub_right(a: Seq<u8>, b: Seq<u8>, x: int, y: int)
    requires
        a.len() <= x <= y <= a.len() + b.len(),
    ensures
        (a + b).subrange(x, y) == b.subrange(x - a.len(), y - a.len()),
{
    assert((a + b).subrange(x, y) =~= b.subrange(x - a.len(), y - a.len()));
}

proof fn lemma_sub_sub(s: Seq<u8>, lo: int, hi: int, p: Seq<u8>, a: int, b: int)
    requires
        0 <= lo <= hi <= s.len(),
        s.subrange(lo, hi) == p,
        lo <= a <= b <= hi,
    ensures
        s.subrange(a, b) == p.subrange(a - lo, b - lo),
{
    assert(s.subrange(a, b) =~= p.subrange(a - lo, b - lo));
}

/// A list pointer at word `wi` whose target blob at word `s` is the padded
/// image of the text `tv` makes a valid text holding `tv`.
#[verifier::rlimit(100)]
#[verifier::spinoff_prover]
proof fn lemma_text_at(seg: Seq<u8>, wi: int, s: int, tv: Seq<u8>)
    requires
        0 <= wi,
        8 * wi + 8 <= seg.len(),
        seg.subrange(8 * wi, 8 * wi + 8) == list_ptr_word(s - wi - 1, 2, tv.len() + 1 as int),
        0 <= s - wi - 1 < 0x20000000,
        tv.len() + 1 < 0x20000000,
        0 <= s,
        8 * s + 8 * twords(tv) <= seg.len(),
        seg.subrange(8 * s, 8 * s + 8 * twords(tv)) == text_blob(tv),
    ensures
        text_ok(seg, wi),
        text_val(seg, wi) == tv,
        text_reach(seg, wi) == twords(tv),
{
    lemma_twords(tv);
    lemma_list_ptr_fields(seg, wi, s - wi - 1, 2, tv.len() + 1 as int);
    assert(wi + 1 + psoff(seg, wi) == s);
    let blob = text_blob(tv);
    lemma_sub_sub(
        seg,
        8 * s,
        8 * s + 8 * twords(tv),
        blob,
        8 * s + tv.len() as int,
        8 * s + tv.len() + 1 as int,
    );
    assert(blob.subrange(tv.len() as int, tv.len() + 1 as int)[0] == blob[tv.len() as int]);
    assert(blob[tv.len() as int] == 0);
    assert(seg.subrange(8 * s + tv.len() as int, 8 * s + tv.len() + 1 as int)[0] == seg[8 * s
        + tv.len() as int]);
    assert(seg[8 * s + tv.len() as int] == 0);
    lemma_sub_sub(seg, 8 * s, 8 * s + 8 * twords(tv), blob, 8 * s, 8 * s + tv.len() as int);
    assert(blob.subrange(0, tv.len() as int) =~= tv);
    assert(text_val(seg, wi) == tv);
    assert((lcnt(seg, wi) as int + 7) / 8 == twords(tv));
}

/// The pointer words of entry `i` within `elem_ptr_words(es, j)`.
proof fn lemma_elem_words_at(es: Seq<(Seq<u8>, Seq<u8>)>, j: int, i: int)
    requires
        0 <= j <= i < es.len(),
    ensures
        elem_ptr_words(es, j).subrange(16 * (i - j), 16 * (i - j) + 8) == list_ptr_word(
            2 * (es.len() - i) - 1 + tsum(es, i),
            2,
            es[i].0.len() + 1 as int,
        ),
        elem_ptr_words(es, j).subrange(16 * (i - j) + 8, 16 * (i - j) + 16) == list_ptr_word(
            2 * (es.len() - i) - 2 + tsum(es, i) + twords(es[i].0),
            2,
            es[i].1.len() + 1 as int,
        ),
    decreases i - j,
{
    let n = es.len() as int;
    let kw = list_ptr_word(2 * (n - j) - 1 + tsum(es, j), 2, es[j].0.len() + 1 as int);
    let vw = list_ptr_word(
        2 * (n - j) - 2 + tsum(es, j) + twords(es[j].0),
        2,
        es[j].1.len() + 1 as int,
    );
    assert(kw.len() == 8);
    assert(vw.len() == 8);
    lemma_elem_ptr_words_len(es, j + 1);
    if j == i {
        assert(elem_ptr_words(es, j).subrange(0, 8) =~= kw);
        assert(elem_ptr_words(es, j).subrange(8, 16) =~= vw);
    } else {
        lemma_elem_words_at(es, j + 1, i);
        assert(elem_ptr_words(es, j).subrange(16 * (i - j), 16 * (i - j) + 8) =~= elem_ptr_words(
            es,
            j + 1,
        ).subrange(16 * (i - j - 1), 16 * (i - j - 1) + 8));
        assert(elem_ptr_words(es, j).subrange(16 * (i - j) + 8, 16 * (i - j) + 16)
            =~= elem_ptr_words(es, j + 1).subrange(16 * (i - j - 1) + 8, 16 * (i - j - 1) + 16));
    }
}

/// The text blobs of entry `i` within `text_blobs(es, j)`.
proof fn lemma_text_blobs_at(es: Seq<(Seq<u8>, Seq<u8>)>, j: int, i: int)
    requires
        0 <= j <= i < es.len(),
    ensures
        text_blobs(es, j).subrange(
            8 * (tsum(es, i) - tsum(es, j)),
            8 * (tsum(es, i) - tsum(es, j)) + 8 * twords(es[i].0),
        ) == text_blob(es[i].0),
        text_blobs(es, j).subrange(
            8 * (tsum(es, i) - tsum(es, j)) + 8 * twords(es[i].0),
            8 * (tsum(es, i) - tsum(es, j)) + 8 * twords(es[i].0) + 8 * twords(es[i].1),
        ) == text_blob(es[i].1),
    decreases i - j,
{
    let kb = text_blob(es[j].0);
    let vb = text_blob(es[j].1);
    lemma_twords(es[j].0);
    lemma_twords(es[j].1);
    lemma_text_blobs_len(es, j + 1);
    lemma_tsum_bounds(es, j, i);
    lemma_tsum_next(es, j);
    if j == i {
        assert(text_blobs(es, j).subrange(0, 8 * twords(es[i].0)) =~= kb);
        assert(text_blobs(es, j).subrange(
            8 * twords(es[i].0),
            8 * twords(es[i].0) + 8 * twords(es[i].1),
        ) =~= vb);
    } else {
        lemma_text_blobs_at(es, j + 1, i);
        lemma_tsum_bounds(es, j + 1, i);
        lemma_tsum_bounds(es, i + 1, es.len() as int);
        lemma_tsum_next(es, i);
        lemma_twords(es[i].0);
        lemma_twords(es[i].1);
        lemma_text_blobs_len(es, j);
        let o = 8 * (tsum(es, i) - tsum(es, j));
        let o2 = 8 * (tsum(es, i) - tsum(es, j + 1));
        assert(text_blobs(es, j).subrange(o, o + 8 * twords(es[i].0)) =~= text_blobs(
            es,
            j + 1,
        ).subrange(o2, o2 + 8 * twords(es[i].0)));
        assert(text_blobs(es, j).subrange(
            o + 8 * twords(es[i].0),
            o + 8 * twords(es[i].0) + 8 * twords(es[i].1),
        ) =~= text_blobs(es, j + 1).subrange(
            o2 + 8 * twords(es[i].0),
            o2 + 8 * twords(es[i].0) + 8 * twords(es[i].1),
        ));
    }
}

/// The two pointer words of entry `i`, as subranges of the segment.
#[verifier::rlimit(100)]
#[verifier::spinoff_prover]
proof fn lemma_entry_block_ptrs(seg: Seq<u8>, l: int, es: Seq<(Seq<u8>, Seq<u8>)>, i: int)
    requires
        0 <= l,
        0 <= i < es.len(),
        2 * es.len() + tsum(es, es.len() as int) <= MAX_SEG_WORDS,
        8 * (l + 1 + 2 * es.len() + tsum(es, es.len() as int)) <= seg.len(),
        seg.subrange(8 * l, 8 * (l + 1 + 2 * es.len() + tsum(es, es.len() as int)))
            == struct_ptr_word(es.len() as int, 0, 2) + elem_ptr_words(es, 0) + text_blobs(es, 0),
    ensures
        seg.subrange(8 * (l + 1 + 2 * i), 8 * (l + 1 + 2 * i) + 8) == list_ptr_word(
            2 * (es.len() - i) - 1 + tsum(es, i),
            2,
            es[i].0.len() + 1 as int,
        ),
        seg.subrange(8 * (l + 2 + 2 * i), 8 * (l + 2 + 2 * i) + 8) == list_ptr_word(
            2 * (es.len() - i) - 2 + tsum(es, i) + twords(es[i].0),
            2,
            es[i].1.len() + 1 as int,
        ),
{
    let n = es.len() as int;
    let t = tsum(es, n);
    let tag = struct_ptr_word(n, 0, 2);
    let elems = elem_ptr_words(es, 0);
    let blobs = text_blobs(es, 0);
    let te = tag + elems;
    let block = te + blobs;
    let blo = 8 * l;
    let bhi = 8 * (l + 1 + 2 * n + t);
    assert(tag.len() == 8);
    lemma_elem_ptr_words_len(es, 0);
    lemma_text_blobs_len(es, 0);
    lemma_tsum_bounds(es, i, n);
    lemma_tsum_bounds(es, 0, i);
    lemma_elem_words_at(es, 0, i);
    lemma_sub_sub(seg, blo, bhi, block, 8 * (l + 1 + 2 * i), 8 * (l + 1 + 2 * i) + 8);
    lemma_concat_sub_left(te, blobs, 8 + 16 * i, 8 + 16 * i + 8);
    lemma_concat_sub_right(tag, elems, 8 + 16 * i, 8 + 16 * i + 8);
    lemma_sub_sub(seg, blo, bhi, block, 8 * (l + 2 + 2 * i), 8 * (l + 2 + 2 * i) + 8);
    lemma_concat_sub_left(te, blobs, 16 + 16 * i, 16 + 16 * i + 8);
    lemma_concat_sub_right(tag, elems, 16 + 16 * i, 16 + 16 * i + 8);
}

/// The two text blobs of entry `i`, as subranges of the segment.
#[verifier::rlimit(100)]
#[verifier::spinoff_prover]
proof fn lemma_entry_block_blobs(seg: Seq<u8>, l: int, es: Seq<(Seq<u8>, Seq<u8>)>, i: int)
    requires
        0 <= l,
        0 <= i < es.len(),
        2 * es.len() + tsum(es, es.len() as int) <= MAX_SEG_WORDS,
        8 * (l + 1 + 2 * es.len() + tsum(es, es.len() as int)) <= seg.len(),
        seg.subrange(8 * l, 8 * (l + 1 + 2 * es.len() + tsum(es, es.len() as int)))
            == struct_ptr_word(es.len() as int, 0, 2) + elem_ptr_words(es, 0) + text_blobs(es, 0),
    ensures
        seg.subrange(
            8 * (l + 1 + 2 * es.len() + tsum(es, i)),
            8 * (l + 1 + 2 * es.len() + tsum(es, i)) + 8 * twords(es[i].0),
        ) == text_blob(es[i].0),
        seg.subrange(
            8 * (l + 1 + 2 * es.len() + tsum(es, i) + twords(es[i].0)),
            8 * (l + 1 + 2 * es.len() + tsum(es, i) + twords(es[i].0)) + 8 * twords(es[i].1),
        ) == text_blob(es[i].1),
{
    let n = es.len() as int;
    let t = tsum(es, n);
    let tag = struct_ptr_word(n, 0, 2);
    let elems = elem_ptr_words(es, 0);
    let blobs = text_blobs(es, 0);
    let te = tag + elems;
    let block = te + blobs;
    let blo = 8 * l;
    let bhi = 8 * (l + 1 + 2 * n + t);
    assert(tag.len() == 8);
    lemma_elem_ptr_words_len(es, 0);
    lemma_text_blobs_len(es, 0);
    lemma_tsum_bounds(es, i, n);
    lemma_tsum_bounds(es, 0, i);
    lemma_tsum_bounds(es, i + 1, n);
    lemma_tsum_next(es, i);
    lemma_twords(es[i].0);
    lemma_twords(es[i].1);
    lemma_text_blobs_at(es, 0, i);
    let ks = l + 1 + 2 * n + tsum(es, i);
    let vs = ks + twords(es[i].0);
    lemma_sub_sub(seg, blo, bhi, block, 8 * ks, 8 * ks + 8 * twords(es[i].0));
    lemma_concat_sub_right(
        te,
        blobs,
        8 * (1 + 2 * n + tsum(es, i)),
        8 * (1 + 2 * n + tsum(es, i)) + 8 * twords(es[i].0),
    );
    lemma_sub_sub(seg, blo, bhi, block, 8 * vs, 8 * vs + 8 * twords(es[i].1));
    lemma_concat_sub_right(
        te,
        blobs,
        8 * (1 + 2 * n + tsum(es, i) + twords(es[i].0)),
        8 * (1 + 2 * n + tsum(es, i) + twords(es[i].0)) + 8 * twords(es[i].1),
    );
}

/// What the decoder finds at entry `i` of an entry block laid out at word
/// `l` of `seg`: both texts valid, holding the entry's bytes.
#[verifier::rlimit(100)]
#[verifier::spinoff_prover]
proof fn lemma_entry_block_at(seg: Seq<u8>, l: int, es: Seq<(Seq<u8>, Seq<u8>)>, i: int)
    requires
        texts_fit(es),
        0 <= l,
        0 <= i < es.len(),
        2 * es.len() + tsum(es, es.len() as int) <= MAX_SEG_WORDS,
        8 * (l + 1 + 2 * es.len() + tsum(es, es.len() as int)) <= seg.len(),
        seg.subrange(8 * l, 8 * (l + 1 + 2 * es.len() + tsum(es, es.len() as int)))
            == struct_ptr_word(es.len() as int, 0, 2) + elem_ptr_words(es, 0) + text_blobs(es, 0),
    ensures
        text_ok(seg, l + 1 + 2 * i),
        text_ok(seg, l + 2 + 2 * i),
        entry_texts_ok(seg, l, i),
        text_val(seg, l + 1 + 2 * i) == es[i].0,
        text_val(seg, l + 2 + 2 * i) == es[i].1,
        text_reach(seg, l + 1 + 2 * i) == twords(es[i].0),
        text_reach(seg, l + 2 + 2 * i) == twords(es[i].1),
{
    let n = es.len() as int;
    lemma_tsum_bounds(es, i, n);
    lemma_tsum_bounds(es, 0, i);
    lemma_tsum_bounds(es, i + 1, n);
    lemma_tsum_next(es, i);
    lemma_twords(es[i].0);
    lemma_twords(es[i].1);
    lemma_entry_block_ptrs(seg, l, es, i);
    lemma_entry_block_blobs(seg, l, es, i);
    let ks = l + 1 + 2 * n + tsum(es, i);
    let vs = ks + twords(es[i].0);
    lemma_text_at(seg, l + 1 + 2 * i, ks, es[i].0);
    lemma_text_at(seg, l + 2 + 2 * i, vs, es[i].1);
}

/// Words reachable through the texts of an entry block equal the blobs'
/// total words.
proof fn lemma_entry_block_reach(seg: Seq<u8>, l: int, es: Seq<(Seq<u8>, Seq<u8>)>, i: int)
    requires
        texts_fit(es),
        0 <= l,
        0 <= i <= es.len(),
        2 * es.len() + tsum(es, es.len() as int) <= MAX_SEG_WORDS,
        8 * (l + 1 + 2 * es.len() + tsum(es, es.len() as int)) <= seg.len(),
        seg.subrange(8 * l, 8 * (l + 1 + 2 * es.len() + tsum(es, es.len() as int)))
            == struct_ptr_word(es.len() as int, 0, 2) + elem_ptr_words(es, 0) + text_blobs(es, 0),
    ensures
        texts_reach(seg, l, es.len() as int, i) == tsum(es, es.len() as int) - tsum(es, i),
    decreases es.len() - i,
{
    let n = es.len() as int;
    if i == n {
        lemma_tsum_bounds(es, 0, n);
    } else {
        lemma_entry_block_at(seg, l, es, i);
        lemma_entry_block_reach(seg, l, es, i + 1);
        lemma_tsum_next(es, i);
    }
}

/// How an array segment splits into its leading pointers and entry block.
#[verifier::rlimit(100)]
#[verifier::spinoff_prover]
proof fn lemma_array_seg_split(es: Seq<(Seq<u8>, Seq<u8>)>)
    requires
        fits_array(es),
    ensures
        array_seg(es).subrange(0, 8) == struct_ptr_word(0, 0, 1),
        array_seg(es).subrange(8, 16) == list_ptr_word(0, 7, 2 * es.len() as int),
        array_seg(es).subrange(16, 24) == struct_ptr_word(es.len() as int, 0, 2),
        array_seg(es).subrange(16, 8 * (3 + 2 * es.len() + tsum(es, es.len() as int)))
            == struct_ptr_word(es.len() as int, 0, 2) + elem_ptr_words(es, 0) + text_blobs(es, 0),
{
    let n = es.len() as int;
    let t = tsum(es, n);
    let seg = array_seg(es);
    let rootw = struct_ptr_word(0, 0, 1);
    let entw = list_ptr_word(0, 7, 2 * n);
    let tag = struct_ptr_word(n, 0, 2);
    let block = tag + elem_ptr_words(es, 0) + text_blobs(es, 0);
    let lead = rootw + entw;
    assert(rootw.len() == 8 && entw.len() == 8 && tag.len() == 8);
    lemma_elem_ptr_words_len(es, 0);
    lemma_text_blobs_len(es, 0);
    lemma_tsum_bounds(es, 0, n);
    lemma_array_seg_len(es);
    assert(seg =~= lead + block);
    assert(seg.subrange(0, seg.len() as int) =~= seg);
    lemma_sub_sub(seg, 0, seg.len() as int, lead + block, 0, 8);
    lemma_concat_sub_left(lead, block, 0, 8);
    lemma_concat_sub_left(rootw, entw, 0, 8);
    assert(rootw.subrange(0, 8) =~= rootw);
    lemma_sub_sub(seg, 0, seg.len() as int, lead + block, 8, 16);
    lemma_concat_sub_left(lead, block, 8, 16);
    lemma_concat_sub_right(rootw, entw, 8, 16);
    assert(entw.subrange(0, 8) =~= entw);
    lemma_sub_sub(seg, 0, seg.len() as int, lead + block, 16, 8 * (3 + 2 * n + t));
    assert(block.subrange(0, block.len() as int) =~= block);
    lemma_concat_sub_right(lead, block, 16, 8 * (3 + 2 * n + t));
    let te = tag + elem_ptr_words(es, 0);
    lemma_sub_sub(seg, 16, 8 * (3 + 2 * n + t), block, 16, 24);
    lemma_concat_sub_left(te, text_blobs(es, 0), 0, 8);
    lemma_concat_sub_left(tag, elem_ptr_words(es, 0), 0, 8);
    assert(tag.subrange(0, 8) =~= tag);
}

/// Decoding an encoded array message yields the original entries, when the
/// traversal limit (if one is set) covers the message's words.
pub proof fn lemma_array_round_trip(es: Seq<(Seq<u8>, Seq<u8>)>, limit: Option<u64>)
    requires
        fits_array(es),
        limit matches Some(lv) ==> lv >= array_seg_words(es) - 1,
    ensures
        spec_open_array(encode_array_bytes(es), limit) == Ok::<
            Seq<(Seq<u8>, Seq<u8>)>,
            DecodeError,
        >(es),
{
    let n = es.len() as int;
    let t = tsum(es, n);
    let w = array_seg_words(es);
    let seg = array_seg(es);
    lemma_array_seg_len(es);
    lemma_tsum_bounds(es, 0, n);
    assert(seg.len() % 8 == 0 && seg.len() / 8 == w) by (nonlinear_arith)
        requires
            seg.len() == 8 * w,
            0 <= w,
    ;
    let framed = spec_frame(seg);
    assert(framed.len() == 8 + 8 * w);
    assert(framed.len() % 8 == 0) by (nonlinear_arith)
        requires
            framed.len() == 8 + 8 * w,
            0 <= w,
    ;
    lemma_pack_roundtrip(framed);
    lemma_frame_roundtrip(seg);
    assert(spec_unpack(encode_array_bytes(es)) == Some(framed));
    assert(spec_deframe(framed) == Some(seg));
    lemma_array_seg_split(es);
    lemma_struct_ptr_fields(seg, 0, 0, 0, 1);
    assert(!pnull(seg, 0));
    assert(pkind(seg, 0) == 0);
    assert(1 + psoff(seg, 0) == 1);
    assert(seg_words(seg) == w);
    lemma_list_ptr_fields(seg, 1, 0, 7, 2 * n);
    lemma_struct_ptr_fields(seg, 2, n, 0, 2);
    lemma_elem_ptr_words_len(es, 0);
    lemma_text_blobs_len(es, 0);
    assert forall|i: int| 0 <= i < n implies #[trigger] entry_texts_ok(seg, 2, i) by {
        lemma_entry_block_at(seg, 2, es, i);
    }
    assert(read_entry_list(seg, 1) matches Ok(got) && got =~= es) by {
        let got = Seq::new(n as nat, |i: int| (text_val(seg, 3 + 2 * i), text_val(seg, 4 + 2 * i)));
        assert(read_entry_list(seg, 1) == Ok::<Seq<(Seq<u8>, Seq<u8>)>, DecodeError>(got));
        assert forall|i: int| 0 <= i < n implies got[i] == es[i] by {
            lemma_entry_block_at(seg, 2, es, i);
        }
        assert(got =~= es);
    }
    lemma_entry_block_reach(seg, 2, es, 0);
    assert(entry_list_reach(seg, 1) == 1 + 2 * n + t);
    assert(1 + entry_list_reach(seg, 1) == w - 1);
    assert(spec_open_array_seg(seg, limit) == Ok::<Seq<(Seq<u8>, Seq<u8>)>, DecodeError>(es));
}

/// A strict prefix of a packed frame is rejected: unpacking fails, or the
/// segment table's declared length no longer matches the buffer.
#[verifier::rlimit(100)]
#[verifier::spinoff_prover]
proof fn lemma_frame_prefix_rejected(seg: Seq<u8>, k: int)
    requires
        seg.len() % 8 == 0,
        seg.len() / 8 < 0x100000000,
        0 <= k < spec_pack(spec_frame(seg)).len(),
    ensures
        spec_unpack(spec_pack(spec_frame(seg)).take(k)) matches Some(u) ==> spec_deframe(u)
            is None,
{
    let w = seg.len() as int / 8;
    let framed = spec_frame(seg);
    vstd::arithmetic::div_mod::lemma_fundamental_div_mod(seg.len() as int, 8);
    assert(seg.len() == 8 * w);
    assert(framed.len() == 8 + 8 * w);
    assert(framed.len() % 8 == 0) by (nonlinear_arith)
        requires
            framed.len() == 8 + 8 * w,
            0 <= w,
    ;
    lemma_unpack_pack_prefix(framed, 0, k);
    let o = spec_unpack(spec_pack(framed).take(k));
    if o is Some {
        let u = o->Some_0;
        assert(u.len() <= 8 * w);
        assert(u == framed.subrange(0, u.len() as int));
        if u.len() >= 8 {
            assert(forall|j: int| 0 <= j < u.len() ==> u[j] == framed.subrange(
                0,
                u.len() as int,
            )[j]);
            lemma_le32_roundtrip(0);
            lemma_le32_roundtrip(w as nat);
            assert(u[0] == framed[0] && u[1] == framed[1] && u[2] == framed[2] && u[3]
                == framed[3]);
            assert(u[4] == framed[4] && u[5] == framed[5] && u[6] == framed[6] && u[7]
                == framed[7]);
            assert(framed[0] == le32_bytes(0)[0]);
            assert(framed[1] == le32_bytes(0)[1]);
            assert(framed[2] == le32_bytes(0)[2]);
            assert(framed[3] == le32_bytes(0)[3]);
            assert(framed[4] == le32_bytes(w as nat)[0]);
            assert(framed[5] == le32_bytes(w as nat)[1]);
            assert(framed[6] == le32_bytes(w as nat)[2]);
            assert(framed[7] == le32_bytes(w as nat)[3]);
            lemma_le32_at_shift(u, le32_bytes(0), 0, 0);
            lemma_le32_at_shift(u, le32_bytes(w as nat), 4, 0);
            assert(le32_at(u, 0) == 0);
            assert(le32_at(u, 4) == w);
            assert(crate::framing::header_bytes_len(1) == 8);
            assert(crate::framing::seg_lengths_sum(u, 1, 1) == 0);
            assert(crate::framing::seg_lengths_sum(u, 0, 1) == w);
            assert(u.len() != 8 + 8 * w);
        }
    }
}

/// Truncating an encoded array message by any number of bytes makes `open`
/// fail as malformed.
pub proof fn lemma_array_rejects_truncation(es: Seq<(Seq<u8>, Seq<u8>)>, limit: Option<u64>, k: int)
    requires
        fits_array(es),
        0 <= k < encode_array_bytes(es).len(),
    ensures
        spec_open_array(encode_array_bytes(es).take(k), limit) == Err::<
            Seq<(Seq<u8>, Seq<u8>)>,
            DecodeError,
        >(DecodeError::Malformed),
{
    let seg = array_seg(es);
    let w = array_seg_words(es);
    lemma_array_seg_len(es);
    lemma_tsum_bounds(es, 0, es.len() as int);
    assert(seg.len() % 8 == 0 && seg.len() / 8 == w) by (nonlinear_arith)
        requires
            seg.len() == 8 * w,
            0 <= w,
    ;
    lemma_frame_prefix_rejected(seg, k);
}

/// Truncating an encoded hash-table message by any number of bytes makes
/// `open` fail as malformed.
pub proof fn lemma_hash_table_rejects_truncation(
    es: Seq<(Seq<u8>, Seq<u8>)>,
    seeds: Seq<i32>,
    m: i32,
    r: i32,
    limit: Option<u64>,
    k: int,
)
    requires
        fits_hash_table(es, seeds),
        0 <= k < encode_hash_table_bytes(es, seeds, m, r).len(),
    ensures
        spec_open_hash_table(encode_hash_table_bytes(es, seeds, m, r).take(k), limit) == Err::<
            (Seq<(Seq<u8>, Seq<u8>)>, Seq<i32>, i32, i32),
            DecodeError,
        >(DecodeError::Malformed),
{
    let seg = chd_seg(es, seeds, m, r);
    let w = chd_seg_words(es, seeds);
    lemma_chd_seg_len(es, seeds, m, r);
    lemma_tsum_bounds(es, 0, es.len() as int);
    assert(seg.len() % 8 == 0 && seg.len() / 8 == w) by (nonlinear_arith)
        requires
            seg.len() == 8 * w,
            0 <= w,
    ;
    lemma_frame_prefix_rejected(seg, k);
}

/// Encoding is a function of the logical value alone: equal records give
/// byte-identical output.
pub proof fn lemma_encode_array_deterministic(v1: Seq<(Seq<u8>, Seq<u8>)>, v2: Seq<(Seq<u8>, Seq<u8>)>)
    requires
        v1 == v2,
    ensures
        encode_array_bytes(v1) == encode_array_bytes(v2),
{
}

/// The wire image of seed `i` within `seed_words(seeds, j)`.
proof fn lemma_seed_words_at(seeds: Seq<i32>, j: int, i: int)
    requires
        0 <= j <= i < seeds.len(),
    ensures
        le32_at(seed_words(seeds, j), 4 * (i - j)) == u32_of_i32(seeds[i]),
    decreases i - j,
{
    let ns = seeds.len() as int;
    let sw = seed_words(seeds, j);
    let u0 = u32_of_i32(seeds[j]);
    let second = if j + 1 < ns {
        le32_bytes(u32_of_i32(seeds[j + 1]))
    } else {
        le32_bytes(0)
    };
    lemma_i32_roundtrip(seeds[j]);
    lemma_seed_words_len(seeds, j);
    assert(sw == le32_bytes(u0) + second + seed_words(seeds, j + 2));
    if i == j {
        lemma_le32_roundtrip(u0);
        assert(sw[0] == le32_bytes(u0)[0]);
        assert(sw[1] == le32_bytes(u0)[1]);
        assert(sw[2] == le32_bytes(u0)[2]);
        assert(sw[3] == le32_bytes(u0)[3]);
        lemma_le32_at_shift(sw, le32_bytes(u0), 0, 0);
    } else if i == j + 1 {
        lemma_i32_roundtrip(seeds[i]);
        lemma_le32_roundtrip(u32_of_i32(seeds[i]));
        assert(sw[4] == second[0]);
        assert(sw[5] == second[1]);
        assert(sw[6] == second[2]);
        assert(sw[7] == second[3]);
        lemma_le32_at_shift(sw, second, 4, 0);
    } else {
        lemma_seed_words_at(seeds, j + 2, i);
        let rest = seed_words(seeds, j + 2);
        lemma_seed_words_len(seeds, j + 2);
        let o = 4 * (i - j);
        assert(sw[o] == rest[o - 8]);
        assert(sw[o + 1] == rest[o - 8 + 1]);
        assert(sw[o + 2] == rest[o - 8 + 2]);
        assert(sw[o + 3] == rest[o - 8 + 3]);
        lemma_le32_at_shift(sw, rest, o, o - 8);
    }
}

/// The seed values read back from a seed block laid out at word `sstart`.
#[verifier::rlimit(100)]
#[verifier::spinoff_prover]
proof fn lemma_seed_block_at(seg: Seq<u8>, sstart: int, seeds: Seq<i32>, i: int)
    requires
        0 <= sstart,
        0 <= i < seeds.len(),
        8 * (sstart + swords(seeds.len() as int)) <= seg.len(),
        seg.subrange(8 * sstart, 8 * (sstart + swords(seeds.len() as int))) == seed_words(
            seeds,
            0,
        ),
    ensures
        le32_at(seg, 8 * sstart + 4 * i) == u32_of_i32(seeds[i]),
{
    let ns = seeds.len() as int;
    let f = seed_words(seeds, 0);
    lemma_seed_words_len(seeds, 0);
    lemma_seed_words_at(seeds, 0, i);
    assert(seg[8 * sstart + 4 * i] == f[4 * i]);
    assert(seg[8 * sstart + 4 * i + 1] == f[4 * i + 1]);
    assert(seg[8 * sstart + 4 * i + 2] == f[4 * i + 2]);
    assert(seg[8 * sstart + 4 * i + 3] == f[4 * i + 3]);
    lemma_le32_at_shift(seg, f, 8 * sstart + 4 * i, 4 * i);
}

/// How a hash-table segment splits into its root words, entry block and
/// seed block.
#[verifier::rlimit(100)]
#[verifier::spinoff_prover]
proof fn lemma_chd_seg_split(es: Seq<(Seq<u8>, Seq<u8>)>, seeds: Seq<i32>, m: i32, r: i32)
    requires
        fits_hash_table(es, seeds),
    ensures
        chd_seg(es, seeds, m, r).subrange(0, 8) == struct_ptr_word(0, 1, 2),
        plo(chd_seg(es, seeds, m, r), 1) == u32_of_i32(m),
        phi(chd_seg(es, seeds, m, r), 1) == u32_of_i32(r),
        chd_seg(es, seeds, m, r).subrange(16, 24) == list_ptr_word(1, 7, 2 * es.len() as int),
        chd_seg(es, seeds, m, r).subrange(24, 32) == list_ptr_word(
            1 + 2 * es.len() + tsum(es, es.len() as int),
            4,
            seeds.len() as int,
        ),
        chd_seg(es, seeds, m, r).subrange(
            32,
            8 * (5 + 2 * es.len() + tsum(es, es.len() as int)),
        ) == struct_ptr_word(es.len() as int, 0, 2) + elem_ptr_words(es, 0) + text_blobs(es, 0),
        chd_seg(es, seeds, m, r).subrange(
            8 * (5 + 2 * es.len() + tsum(es, es.len() as int)),
            8 * (5 + 2 * es.len() + tsum(es, es.len() as int)) + 8 * swords(seeds.len() as int),
        ) == seed_words(seeds, 0),
{
    let n = es.len() as int;
    let t = tsum(es, n);
    let ns = seeds.len() as int;
    let seg = chd_seg(es, seeds, m, r);
    let a = struct_ptr_word(0, 1, 2);
    let mr = le32_bytes(u32_of_i32(m)) + le32_bytes(u32_of_i32(r));
    let b1 = list_ptr_word(1, 7, 2 * n);
    let b2 = list_ptr_word(1 + 2 * n + t, 4, ns);
    let tag = struct_ptr_word(n, 0, 2);
    let lead = a + mr + b1 + b2;
    let block = tag + elem_ptr_words(es, 0) + text_blobs(es, 0);
    let f = seed_words(seeds, 0);
    assert(a.len() == 8 && mr.len() == 8 && b1.len() == 8 && b2.len() == 8 && tag.len() == 8);
    lemma_elem_ptr_words_len(es, 0);
    lemma_text_blobs_len(es, 0);
    lemma_seed_words_len(seeds, 0);
    lemma_tsum_bounds(es, 0, n);
    lemma_chd_seg_len(es, seeds, m, r);
    assert(seg =~= (lead + block) + f);
    assert(seg.subrange(0, seg.len() as int) =~= seg);
    let lb = lead + block;
    lemma_sub_sub(seg, 0, seg.len() as int, lb + f, 0, 8);
    lemma_concat_sub_left(lb, f, 0, 8);
    lemma_concat_sub_left(lead, block, 0, 8);
    lemma_concat_sub_left(a + mr + b1, b2, 0, 8);
    lemma_concat_sub_left(a + mr, b1, 0, 8);
    lemma_concat_sub_left(a, mr, 0, 8);
    assert(a.subrange(0, 8) =~= a);
    assert(seg.subrange(0, 8) == a);
    lemma_sub_sub(seg, 0, seg.len() as int, lb + f, 8, 16);
    lemma_concat_sub_left(lb, f, 8, 16);
    lemma_concat_sub_left(lead, block, 8, 16);
    lemma_concat_sub_left(a + mr + b1, b2, 8, 16);
    lemma_concat_sub_left(a + mr, b1, 8, 16);
    lemma_concat_sub_right(a, mr, 8, 16);
    assert(mr.subrange(0, 8) =~= mr);
    assert(seg.subrange(8, 16) == mr);
    lemma_i32_roundtrip(m);
    lemma_i32_roundtrip(r);
    lemma_le32_roundtrip(u32_of_i32(m));
    lemma_le32_roundtrip(u32_of_i32(r));
    assert(seg[8] == mr[0] && seg[9] == mr[1] && seg[10] == mr[2] && seg[11] == mr[3]) by {
        assert(seg.subrange(8, 16)[0] == seg[8]);
        assert(seg.subrange(8, 16)[1] == seg[9]);
        assert(seg.subrange(8, 16)[2] == seg[10]);
        assert(seg.subrange(8, 16)[3] == seg[11]);
    }
    assert(seg[12] == mr[4] && seg[13] == mr[5] && seg[14] == mr[6] && seg[15] == mr[7]) by {
        assert(seg.subrange(8, 16)[4] == seg[12]);
        assert(seg.subrange(8, 16)[5] == seg[13]);
        assert(seg.subrange(8, 16)[6] == seg[14]);
        assert(seg.subrange(8, 16)[7] == seg[15]);
    }
    assert(mr[0] == le32_bytes(u32_of_i32(m))[0]);
    assert(mr[1] == le32_bytes(u32_of_i32(m))[1]);
    assert(mr[2] == le32_bytes(u32_of_i32(m))[2]);
    assert(mr[3] == le32_bytes(u32_of_i32(m))[3]);
    assert(mr[4] == le32_bytes(u32_of_i32(r))[0]);
    assert(mr[5] == le32_bytes(u32_of_i32(r))[1]);
    assert(mr[6] == le32_bytes(u32_of_i32(r))[2]);
    assert(mr[7] == le32_bytes(u32_of_i32(r))[3]);
    lemma_le32_at_shift(seg, le32_bytes(u32_of_i32(m)), 8, 0);
    lemma_le32_at_shift(seg, le32_bytes(u32_of_i32(r)), 12, 0);
    lemma_sub_sub(seg, 0, seg.len() as int, lb + f, 16, 24);
    lemma_concat_sub_left(lb, f, 16, 24);
    lemma_concat_sub_left(lead, block, 16, 24);
    lemma_concat_sub_left(a + mr + b1, b2, 16, 24);
    lemma_concat_sub_right(a + mr, b1, 16, 24);
    assert(b1.subrange(0, 8) =~= b1);
    assert(seg.subrange(16, 24) == b1);
    lemma_sub_sub(seg, 0, seg.len() as int, lb + f, 24, 32);
    lemma_concat_sub_left(lb, f, 24, 32);
    lemma_concat_sub_left(lead, block, 24, 32);
    lemma_concat_sub_right(a + mr + b1, b2, 24, 32);
    assert(b2.subrange(0, 8) =~= b2);
    assert(seg.subrange(24, 32) == b2);
    lemma_sub_sub(seg, 0, seg.len() as int, lb + f, 32, 8 * (5 + 2 * n + t));
    lemma_concat_sub_left(lb, f, 32, 8 * (5 + 2 * n + t));
    lemma_concat_sub_right(lead, block, 32, 8 * (5 + 2 * n + t));
    assert(block.subrange(0, block.len() as int) =~= block);
    assert(seg.subrange(32, 8 * (5 + 2 * n + t)) == block);
    lemma_sub_sub(
        seg,
        0,
        seg.len() as int,
        lb + f,
        8 * (5 + 2 * n + t),
        8 * (5 + 2 * n + t) + 8 * swords(ns),
    );
    lemma_concat_sub_right(lb, f, 8 * (5 + 2 * n + t), 8 * (5 + 2 * n + t) + 8 * swords(ns));
    assert(f.subrange(0, f.len() as int) =~= f);
    assert(seg.subrange(8 * (5 + 2 * n + t), 8 * (5 + 2 * n + t) + 8 * swords(ns)) == f);
}

/// Decoding an encoded hash-table message yields the original entries,
/// seeds and scalars, when the traversal limit (if one is set) covers the
/// message's words.
#[verifier::rlimit(100)]
#[verifier::spinoff_prover]
pub proof fn lemma_hash_table_round_trip(
    es: Seq<(Seq<u8>, Seq<u8>)>,
    seeds: Seq<i32>,
    m: i32,
    r: i32,
    limit: Option<u64>,
)
    requires
        fits_hash_table(es, seeds),
        limit matches Some(lv) ==> lv >= chd_seg_words(es, seeds) - 1,
    ensures
        spec_open_hash_table(encode_hash_table_bytes(es, seeds, m, r), limit) == Ok::<
            (Seq<(Seq<u8>, Seq<u8>)>, Seq<i32>, i32, i32),
            DecodeError,
        >((es, seeds, m, r)),
{
    let n = es.len() as int;
    let t = tsum(es, n);
    let ns = seeds.len() as int;
    let w = chd_seg_words(es, seeds);
    let seg = chd_seg(es, seeds, m, r);
    lemma_chd_seg_len(es, seeds, m, r);
    lemma_tsum_bounds(es, 0, n);
    assert(seg.len() % 8 == 0 && seg.len() / 8 == w) by (nonlinear_arith)
        requires
            seg.len() == 8 * w,
            0 <= w,
    ;
    let framed = spec_frame(seg);
    assert(framed.len() == 8 + 8 * w);
    assert(framed.len() % 8 == 0) by (nonlinear_arith)
        requires
            framed.len() == 8 + 8 * w,
            0 <= w,
    ;
    lemma_pack_roundtrip(framed);
    lemma_frame_roundtrip(seg);
    lemma_open_chd_seg(es, seeds, m, r, limit);
}

/// Opening a laid-out hash-table segment yields the original value.
#[verifier::rlimit(100)]
#[verifier::spinoff_prover]
proof fn lemma_open_chd_seg(
    es: Seq<(Seq<u8>, Seq<u8>)>,
    seeds: Seq<i32>,
    m: i32,
    r: i32,
    limit: Option<u64>,
)
    requires
        fits_hash_table(es, seeds),
        limit matches Some(lv) ==> lv >= chd_seg_words(es, seeds) - 1,
    ensures
        spec_open_hash_table_seg(chd_seg(es, seeds, m, r), limit) == Ok::<
            (Seq<(Seq<u8>, Seq<u8>)>, Seq<i32>, i32, i32),
            DecodeError,
        >((es, seeds, m, r)),
{
    let n = es.len() as int;
    let t = tsum(es, n);
    let ns = seeds.len() as int;
    let w = chd_seg_words(es, seeds);
    let seg = chd_seg(es, seeds, m, r);
    lemma_chd_seg_len(es, seeds, m, r);
    lemma_tsum_bounds(es, 0, n);
    assert(seg.len() % 8 == 0 && seg.len() / 8 == w) by (nonlinear_arith)
        requires
            seg.len() == 8 * w,
            0 <= w,
    ;
    lemma_chd_seg_split(es, seeds, m, r);
    lemma_struct_ptr_fields(seg, 0, 0, 1, 2);
    assert(!pnull(seg, 0));
    assert(1 + psoff(seg, 0) == 1);
    assert(seg_words(seg) == w);
    assert(i32_of_u32(plo(seg, 1)) == m) by {
        lemma_i32_roundtrip(m);
    }
    assert(i32_of_u32(phi(seg, 1)) == r) by {
        lemma_i32_roundtrip(r);
    }
    lemma_list_ptr_fields(seg, 2, 1, 7, 2 * n);
    lemma_list_ptr_fields(seg, 3, 1 + 2 * n + t, 4, ns);
    lemma_elem_ptr_words_len(es, 0);
    lemma_text_blobs_len(es, 0);
    let tag = struct_ptr_word(n, 0, 2);
    let block = tag + elem_ptr_words(es, 0) + text_blobs(es, 0);
    assert(tag.len() == 8);
    lemma_sub_sub(seg, 32, 8 * (5 + 2 * n + t), block, 32, 40);
    lemma_concat_sub_left(tag + elem_ptr_words(es, 0), text_blobs(es, 0), 0, 8);
    lemma_concat_sub_left(tag, elem_ptr_words(es, 0), 0, 8);
    assert(tag.subrange(0, 8) =~= tag);
    assert(seg.subrange(32, 40) == tag);
    lemma_struct_ptr_fields(seg, 4, n, 0, 2);
    assert forall|i: int| 0 <= i < n implies #[trigger] entry_texts_ok(seg, 4, i) by {
        lemma_entry_block_at(seg, 4, es, i);
    }
    assert(read_entry_list(seg, 2) matches Ok(got) && got =~= es) by {
        let got = Seq::new(n as nat, |i: int| (text_val(seg, 5 + 2 * i), text_val(seg, 6 + 2 * i)));
        assert(read_entry_list(seg, 2) == Ok::<Seq<(Seq<u8>, Seq<u8>)>, DecodeError>(got));
        assert forall|i: int| 0 <= i < n implies got[i] == es[i] by {
            lemma_entry_block_at(seg, 4, es, i);
        }
        assert(got =~= es);
    }
    lemma_entry_block_reach(seg, 4, es, 0);
    assert(entry_list_reach(seg, 2) == 1 + 2 * n + t);
    let sstart = 5 + 2 * n + t;
    assert(3 + 1 + psoff(seg, 3) == sstart);
    lemma_seed_words_len(seeds, 0);
    assert(read_seed_list(seg, 3) matches Ok(gs) && gs =~= seeds) by {
        assert(swords(ns) == (ns + 1) / 2);
        let gs = Seq::new(ns as nat, |i: int| i32_of_u32(le32_at(seg, 8 * sstart + 4 * i)));
        assert(read_seed_list(seg, 3) == Ok::<Seq<i32>, DecodeError>(gs));
        assert forall|i: int| 0 <= i < ns implies gs[i] == seeds[i] by {
            lemma_seed_block_at(seg, sstart, seeds, i);
            lemma_i32_roundtrip(seeds[i]);
        }
        assert(gs =~= seeds);
    }
    assert(seed_list_reach(seg, 3) == swords(ns));
    assert(3 + entry_list_reach(seg, 2) + seed_list_reach(seg, 3) == w - 1);
    assert(spec_open_hash_table_seg(seg, limit) == Ok::<
        (Seq<(Seq<u8>, Seq<u8>)>, Seq<i32>, i32, i32),
        DecodeError,
    >((es, seeds, m, r)));
}

/// Opening an array message with the hash-table decoder is refused as a
/// schema mismatch, never reinterpreted.
pub proof fn lemma_hash_table_rejects_array(es: Seq<(Seq<u8>, Seq<u8>)>, limit: Option<u64>)
    requires
        fits_array(es),
    ensures
        spec_open_hash_table(encode_array_bytes(es), limit) == Err::<
            (Seq<(Seq<u8>, Seq<u8>)>, Seq<i32>, i32, i32),
            DecodeError,
        >(DecodeError::SchemaMismatch),
{
    let n = es.len() as int;
    let w = array_seg_words(es);
    let seg = array_seg(es);
    lemma_array_seg_len(es);
    lemma_tsum_bounds(es, 0, n);
    assert(seg.len() % 8 == 0 && seg.len() / 8 == w) by (nonlinear_arith)
        requires
            seg.len() == 8 * w,
            0 <= w,
    ;
    let framed = spec_frame(seg);
    assert(framed.len() % 8 == 0) by (nonlinear_arith)
        requires
            framed.len() == 8 + 8 * w,
            0 <= w,
    ;
    lemma_pack_roundtrip(framed);
    lemma_frame_roundtrip(seg);
    lemma_array_seg_split(es);
    lemma_struct_ptr_fields(seg, 0, 0, 0, 1);
    assert(seg_words(seg) == w);
}

/// Opening a hash-table message with the array decoder is refused as a
/// schema mismatch, never reinterpreted.
pub proof fn lemma_array_rejects_hash_table(
    es: Seq<(Seq<u8>, Seq<u8>)>,
    seeds: Seq<i32>,
    m: i32,
    r: i32,
    limit: Option<u64>,
)
    requires
        fits_hash_table(es, seeds),
    ensures
        spec_open_array(encode_hash_table_bytes(es, seeds, m, r), limit) == Err::<
            Seq<(Seq<u8>, Seq<u8>)>,
            DecodeError,
        >(DecodeError::SchemaMismatch),
{
    let n = es.len() as int;
    let w = chd_seg_words(es, seeds);
    let seg = chd_seg(es, seeds, m, r);
    lemma_chd_seg_len(es, seeds, m, r);
    lemma_tsum_bounds(es, 0, n);
    assert(seg.len() % 8 == 0 && seg.len() / 8 == w) by (nonlinear_arith)
        requires
            seg.len() == 8 * w,
            0 <= w,
    ;
    let framed = spec_frame(seg);
    assert(framed.len() % 8 == 0) by (nonlinear_arith)
        requires
            framed.len() == 8 + 8 * w,
            0 <= w,
    ;
    lemma_pack_roundtrip(framed);
    lemma_frame_roundtrip(seg);
    lemma_chd_seg_split(es, seeds, m, r);
    lemma_struct_ptr_fields(seg, 0, 0, 1, 2);
    assert(seg_words(seg) == w);
}

/// Hash-table encoding is a function of the logical value alone: equal
/// records give byte-identical output.
pub proof fn lemma_encode_hash_table_deterministic(
    v1: (Seq<(Seq<u8>, Seq<u8>)>, Seq<i32>, i32, i32),
    v2: (Seq<(Seq<u8>, Seq<u8>)>, Seq<i32>, i32, i32),
)
    requires
        v1 == v2,
    ensures
        encode_hash_table_bytes(v1.0, v1.1, v1.2, v1.3) == encode_hash_table_bytes(
            v2.0,
            v2.1,
            v2.2,
            v2.3,
        ),
{
}

} // verus!
