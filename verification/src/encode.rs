use vstd::prelude::*;
use crate::framing::spec_frame;
use crate::layout::MAX_SEG_WORDS;
use crate::layout::MAX_SEED_COUNT;
use crate::layout::MAX_TEXT_LEN;
use crate::layout::array_seg;
use crate::layout::array_seg_words;
use crate::layout::chd_seg;
use crate::layout::chd_seg_words;
use crate::layout::elem_ptr_words;
use crate::layout::fits_array;
use crate::layout::fits_hash_table;
use crate::layout::lemma_array_seg_len;
use crate::layout::lemma_chd_seg_len;
use crate::layout::lemma_tsum_bounds;
use crate::layout::lemma_tsum_next;
use crate::layout::lemma_twords;
use crate::layout::list_ptr_word;
use crate::layout::seed_words;
use crate::layout::struct_ptr_word;
use crate::layout::swords;
use crate::layout::text_blob;
use crate::layout::text_blobs;
use crate::layout::texts_fit;
use crate::layout::tsum;
use crate::layout::twords;
use crate::layout::u32_of_i32;
use crate::packing::pack;
use crate::packing::spec_pack;
use crate::records::ArrayRecord;
use crate::records::EncodingLimitExceeded;
use crate::records::Entry;
use crate::records::HashTableRecord;
use crate::records::pairs_of;
use crate::words::le32_bytes;
use crate::words::push_bytes;
use crate::words::push_le32;
use crate::words::push_zero_bytes;

verus! {

broadcast use crate::words::lemma_le32_bytes_len;

/// The full wire image of an array message: its one segment, framed and
/// packed.
pub open spec fn encode_array_bytes(es: Seq<(Seq<u8>, Seq<u8>)>) -> Seq<u8> {
    spec_pack(spec_frame(array_seg(es)))
}

/// The full wire image of a hash-table message.
pub open spec fn encode_hash_table_bytes(
    es: Seq<(Seq<u8>, Seq<u8>)>,
    seeds: Seq<i32>,
    m: i32,
    r: i32,
) -> Seq<u8> {
    spec_pack(spec_frame(chd_seg(es, seeds, m, r)))
}

/// The unsigned wire image of a signed 32-bit value.
fn i32_to_u32(s: i32) -> (u: u32)
    ensures
        u as nat == u32_of_i32(s),
{
    if s >= 0 {
        s as u32
    } else {
        ((s as i64) + 0x100000000i64) as u32
    }
}

/// Checks the texts of `entries` against the count-field limit and sums
/// their blob words; `None` when some text is over the limit or the sum
/// passes `cap`.
fn text_words_total(entries: &Vec<Entry>, cap: u64) -> (out: Option<u64>)
    requires
        cap <= MAX_SEG_WORDS,
    ensures
        out matches Some(tw) ==> {
            &&& texts_fit(pairs_of(entries@))
            &&& tw == tsum(pairs_of(entries@), entries@.len() as int)
            &&& tw <= cap
        },
        out is None ==> !(texts_fit(pairs_of(entries@)) && tsum(
            pairs_of(entries@),
            entries@.len() as int,
        ) <= cap),
{
    let ghost es = pairs_of(entries@);
    let n = entries.len();
    assert(es.len() == n);
    let mut tw: u64 = 0;
    let mut i: usize = 0;
    while i < n
        invariant
            es == pairs_of(entries@),
            es.len() == n,
            n == entries@.len(),
            i <= n,
            cap <= MAX_SEG_WORDS,
            tw == tsum(es, i as int),
            tw <= cap,
            forall|j: int|
                0 <= j < i ==> es[j].0.len() <= MAX_TEXT_LEN && es[j].1.len() <= MAX_TEXT_LEN,
        decreases n - i,
    {
        assert(es[i as int] == entries@[i as int]@);
        let klen = entries[i].key.len();
        let vlen = entries[i].value.len();
        if klen as u64 > MAX_TEXT_LEN || vlen as u64 > MAX_TEXT_LEN {
            return None;
        }
        let tk = (klen as u64 + 8) / 8;
        let tv = (vlen as u64 + 8) / 8;
        proof {
            lemma_tsum_next(es, i as int);
            assert(tk == twords(es[i as int].0));
            assert(tv == twords(es[i as int].1));
            lemma_twords(es[i as int].0);
            lemma_twords(es[i as int].1);
        }
        let next = tw + tk + tv;
        if next > cap {
            proof {
                lemma_tsum_bounds(es, i as int + 1, es.len() as int);
            }
            return None;
        }
        tw = next;
        i = i + 1;
    }
    Some(tw)
}

/// Serializes an array record.  Succeeds exactly when the value fits the
/// format's count fields, and then the output is the record's wire image.
#[verifier::rlimit(100)]
#[verifier::spinoff_prover]
pub fn encode_array(rec: &ArrayRecord) -> (out: Result<Vec<u8>, EncodingLimitExceeded>)
    ensures
        out is Ok <==> fits_array(rec@),
        out matches Ok(b) ==> b@ == encode_array_bytes(rec@),
{
    let ghost es = pairs_of(rec.entries@);
    let n = rec.entries.len();
    assert(es.len() == n);
    if n as u64 > MAX_SEG_WORDS / 4 {
        proof {
            lemma_tsum_bounds(es, es.len() as int, es.len() as int);
        }
        return Err(EncodingLimitExceeded);
    }
    let cap = MAX_SEG_WORDS - 3 - 2 * (n as u64);
    let tw = match text_words_total(&rec.entries, cap) {
        Some(tw) => tw,
        None => {
            return Err(EncodingLimitExceeded);
        },
    };
    let words: u64 = 3 + 2 * (n as u64) + tw;
    assert(words == array_seg_words(es));
    assert(fits_array(es));
    proof {
        lemma_tsum_bounds(es, 0, es.len() as int);
    }
    let mut buf: Vec<u8> = Vec::new();
    push_le32(&mut buf, 0);
    push_le32(&mut buf, words as u32);
    let ghost hdr = le32_bytes(0) + le32_bytes(words as nat);
    proof {
        assert(buf@ =~= hdr);
    }
    push_le32(&mut buf, 0);
    push_le32(&mut buf, 0x10000);
    proof {
        assert(buf@ =~= hdr + struct_ptr_word(0, 0, 1));
    }
    push_le32(&mut buf, 1);
    let hi1 = 7 + 16 * (n as u64);
    push_le32(&mut buf, hi1 as u32);
    proof {
        assert(buf@ =~= (hdr + struct_ptr_word(0, 0, 1)) + list_ptr_word(0, 7, 2 * (n as int)));
    }
    push_le32(&mut buf, (4 * (n as u64)) as u32);
    push_le32(&mut buf, 0x20000);
    let ghost p0 = ((hdr + struct_ptr_word(0, 0, 1)) + list_ptr_word(0, 7, 2 * (n as int)))
        + struct_ptr_word(n as int, 0, 2);
    proof {
        assert(buf@ =~= p0);
    }
    write_entry_list(&mut buf, &rec.entries, Ghost(es));
    proof {
        assert(buf@ == (p0 + elem_ptr_words(es, 0)) + text_blobs(es, 0));
        lemma_array_seg_len(es);
        assert(array_seg(es).len() / 8 == array_seg_words(es)) by (nonlinear_arith)
            requires
                array_seg(es).len() == 8 * array_seg_words(es),
                array_seg_words(es) >= 0,
        ;
        assert(buf@ =~= spec_frame(array_seg(es)));
        assert(buf@.len() == 8 + 8 * array_seg_words(es));
        assert((8 + 8 * array_seg_words(es)) % 8 == 0) by (nonlinear_arith);
    }
    let out = pack(&buf);
    Ok(out)
}

/// Serializes a hash-table record.  Succeeds exactly when the value fits
/// the format's count fields, and then the output is the record's wire
/// image.
#[verifier::rlimit(100)]
#[verifier::spinoff_prover]
pub fn encode_hash_table(rec: &HashTableRecord) -> (out: Result<Vec<u8>, EncodingLimitExceeded>)
    ensures
        out is Ok <==> fits_hash_table(rec@.0, rec@.1),
        out matches Ok(b) ==> b@ == encode_hash_table_bytes(rec@.0, rec@.1, rec@.2, rec@.3),
{
    let ghost es = pairs_of(rec.entries@);
    let ghost sv = rec.seeds@;
    let n = rec.entries.len();
    let ns = rec.seeds.len();
    assert(es.len() == n);
    if ns as u64 > MAX_SEED_COUNT {
        return Err(EncodingLimitExceeded);
    }
    if n as u64 > MAX_SEG_WORDS / 4 {
        proof {
            lemma_tsum_bounds(es, es.len() as int, es.len() as int);
        }
        return Err(EncodingLimitExceeded);
    }
    let sw = (ns as u64 + 1) / 2;
    assert(sw == swords(ns as int));
    let base = 5 + 2 * (n as u64) + sw;
    if base > MAX_SEG_WORDS {
        proof {
            lemma_tsum_bounds(es, es.len() as int, es.len() as int);
        }
        return Err(EncodingLimitExceeded);
    }
    let cap = MAX_SEG_WORDS - base;
    let tw = match text_words_total(&rec.entries, cap) {
        Some(tw) => tw,
        None => {
            return Err(EncodingLimitExceeded);
        },
    };
    let words: u64 = base + tw;
    assert(words == chd_seg_words(es, sv));
    assert(fits_hash_table(es, sv));
    proof {
        lemma_tsum_bounds(es, 0, es.len() as int);
    }
    let mut buf: Vec<u8> = Vec::new();
    push_le32(&mut buf, 0);
    push_le32(&mut buf, words as u32);
    let ghost hdr = le32_bytes(0) + le32_bytes(words as nat);
    proof {
        assert(buf@ =~= hdr);
    }
    push_le32(&mut buf, 0);
    push_le32(&mut buf, 0x20001);
    let ghost s0 = hdr + struct_ptr_word(0, 1, 2);
    proof {
        assert(buf@ =~= s0);
    }
    let um = i32_to_u32(rec.m);
    let ur = i32_to_u32(rec.r);
    push_le32(&mut buf, um);
    push_le32(&mut buf, ur);
    let ghost s1 = s0 + (le32_bytes(u32_of_i32(rec.m)) + le32_bytes(u32_of_i32(rec.r)));
    proof {
        assert(buf@ =~= s1);
    }
    push_le32(&mut buf, 5);
    let hi1 = 7 + 16 * (n as u64);
    push_le32(&mut buf, hi1 as u32);
    let ghost s2 = s1 + list_ptr_word(1, 7, 2 * (n as int));
    proof {
        assert(buf@ =~= s2);
    }
    let soff: u64 = 1 + 2 * (n as u64) + tw;
    push_le32(&mut buf, (4 * soff + 1) as u32);
    push_le32(&mut buf, (4 + 8 * (ns as u64)) as u32);
    let ghost s3 = s2 + list_ptr_word(soff as int, 4, ns as int);
    proof {
        assert(buf@ =~= s3);
    }
    push_le32(&mut buf, (4 * (n as u64)) as u32);
    push_le32(&mut buf, 0x20000);
    let ghost p0 = s3 + struct_ptr_word(n as int, 0, 2);
    proof {
        assert(buf@ =~= p0);
    }
    write_entry_list(&mut buf, &rec.entries, Ghost(es));
    let ghost pb = buf@;
    proof {
        assert(pb == (p0 + elem_ptr_words(es, 0)) + text_blobs(es, 0));
    }
    let mut i: usize = 0;
    while i < ns
        invariant
            sv == rec.seeds@,
            ns == sv.len(),
            ns as u64 <= MAX_SEED_COUNT,
            i <= ns + 1,
            buf@ + seed_words(sv, i as int) == pb + seed_words(sv, 0),
        decreases ns + 2 - i,
    {
        let ghost bprev = buf@;
        let u0 = i32_to_u32(rec.seeds[i]);
        push_le32(&mut buf, u0);
        if i + 1 < ns {
            let u1 = i32_to_u32(rec.seeds[i + 1]);
            push_le32(&mut buf, u1);
        } else {
            push_le32(&mut buf, 0);
        }
        proof {
            let piece = le32_bytes(u32_of_i32(sv[i as int])) + (if i as int + 1 < ns as int {
                le32_bytes(u32_of_i32(sv[i as int + 1]))
            } else {
                le32_bytes(0)
            });
            assert(buf@ =~= bprev + piece);
            assert(seed_words(sv, i as int) == piece + seed_words(sv, i as int + 2));
            assert((bprev + piece) + seed_words(sv, i as int + 2) =~= bprev + (piece + seed_words(
                sv,
                i as int + 2,
            )));
        }
        i = i + 2;
    }
    proof {
        assert(seed_words(sv, i as int) =~= Seq::<u8>::empty());
        assert(buf@ + seed_words(sv, i as int) =~= buf@);
        assert(buf@ == pb + seed_words(sv, 0));
        lemma_chd_seg_len(es, sv, rec.m, rec.r);
        assert(chd_seg(es, sv, rec.m, rec.r).len() / 8 == chd_seg_words(es, sv))
            by (nonlinear_arith)
            requires
                chd_seg(es, sv, rec.m, rec.r).len() == 8 * chd_seg_words(es, sv),
                chd_seg_words(es, sv) >= 0,
        ;
        assert(buf@ =~= spec_frame(chd_seg(es, sv, rec.m, rec.r)));
        assert(buf@.len() == 8 + 8 * chd_seg_words(es, sv));
        assert((8 + 8 * chd_seg_words(es, sv)) % 8 == 0) by (nonlinear_arith);
    }
    let out = pack(&buf);
    Ok(out)
}

/// Appends the entry list's element pointers and text blobs, the part of
/// the segment shared by both schemas.
#[verifier::rlimit(100)]
#[verifier::spinoff_prover]
fn write_entry_list(buf: &mut Vec<u8>, entries: &Vec<Entry>, es: Ghost<Seq<(Seq<u8>, Seq<u8>)>>)
    requires
        es@ == pairs_of(entries@),
        texts_fit(es@),
        2 * entries@.len() + tsum(es@, entries@.len() as int) <= MAX_SEG_WORDS,
    ensures
        final(buf)@ == old(buf)@ + elem_ptr_words(es@, 0) + text_blobs(es@, 0),
{
    let ghost es = es@;
    let ghost b0 = old(buf)@;
    let n = entries.len();
    assert(es.len() == n);
    let mut acc: u64 = 0;
    let mut j: usize = 0;
    while j < n
        invariant
            es == pairs_of(entries@),
            es.len() == n,
            n == entries@.len(),
            j <= n,
            texts_fit(es),
            2 * (n as int) + tsum(es, n as int) <= MAX_SEG_WORDS,
            acc == tsum(es, j as int),
            buf@ + elem_ptr_words(es, j as int) == (b0 + elem_ptr_words(es, 0)),
        decreases n - j,
    {
        let ghost bprev = buf@;
        assert(es[j as int] == entries@[j as int]@);
        proof {
            lemma_tsum_bounds(es, j as int, n as int);
            lemma_tsum_next(es, j as int);
            lemma_twords(es[j as int].0);
            lemma_twords(es[j as int].1);
        }
        let klen = entries[j].key.len();
        let vlen = entries[j].value.len();
        let tk = (klen as u64 + 8) / 8;
        let koff: u64 = 2 * ((n - j) as u64) - 1 + acc;
        let voff: u64 = 2 * ((n - j) as u64) - 2 + acc + tk;
        push_le32(buf, (4 * koff + 1) as u32);
        push_le32(buf, (2 + 8 * (klen as u64 + 1)) as u32);
        push_le32(buf, (4 * voff + 1) as u32);
        push_le32(buf, (2 + 8 * (vlen as u64 + 1)) as u32);
        proof {
            let kw = list_ptr_word(koff as int, 2, klen as int + 1);
            let vw = list_ptr_word(voff as int, 2, vlen as int + 1);
            assert(buf@ =~= bprev + (kw + vw));
            assert(elem_ptr_words(es, j as int) == (kw + vw) + elem_ptr_words(es, j as int + 1));
            assert((bprev + (kw + vw)) + elem_ptr_words(es, j as int + 1) =~= bprev + ((kw + vw)
                + elem_ptr_words(es, j as int + 1)));
        }
        acc = acc + tk + ((vlen as u64 + 8) / 8);
        j = j + 1;
    }
    proof {
        assert(elem_ptr_words(es, n as int) =~= Seq::<u8>::empty());
        assert(buf@ + elem_ptr_words(es, n as int) =~= buf@);
        assert(buf@ == b0 + elem_ptr_words(es, 0));
    }
    let ghost b1 = buf@;
    let mut j2: usize = 0;
    while j2 < n
        invariant
            es == pairs_of(entries@),
            es.len() == n,
            n == entries@.len(),
            j2 <= n,
            texts_fit(es),
            buf@ + text_blobs(es, j2 as int) == (b1 + text_blobs(es, 0)),
        decreases n - j2,
    {
        let ghost bprev = buf@;
        assert(es[j2 as int] == entries@[j2 as int]@);
        proof {
            lemma_twords(es[j2 as int].0);
            lemma_twords(es[j2 as int].1);
        }
        let klen = entries[j2].key.len();
        let vlen = entries[j2].value.len();
        push_bytes(buf, &entries[j2].key);
        buf.push(0u8);
        let kpad = (((klen + 8) / 8) * 8 - klen) - 1;
        push_zero_bytes(buf, kpad);
        let ghost bmid = buf@;
        push_bytes(buf, &entries[j2].value);
        buf.push(0u8);
        let vpad = (((vlen + 8) / 8) * 8 - vlen) - 1;
        push_zero_bytes(buf, vpad);
        proof {
            let kb = text_blob(es[j2 as int].0);
            let vb = text_blob(es[j2 as int].1);
            assert(kpad == 8 * twords(es[j2 as int].0) - klen - 1);
            assert(vpad == 8 * twords(es[j2 as int].1) - vlen - 1);
            assert(bmid =~= bprev + kb);
            assert(buf@ =~= (bprev + kb) + vb);
            assert(text_blobs(es, j2 as int) == kb + (vb + text_blobs(es, j2 as int + 1)));
            assert(((bprev + kb) + vb) + text_blobs(es, j2 as int + 1) =~= bprev + (kb + (vb
                + text_blobs(es, j2 as int + 1))));
        }
        j2 = j2 + 1;
    }
    proof {
        assert(text_blobs(es, n as int) =~= Seq::<u8>::empty());
        assert(buf@ + text_blobs(es, n as int) =~= buf@);
        assert(buf@ =~= (b0 + elem_ptr_words(es, 0)) + text_blobs(es, 0));
    }
}

} // verus!
