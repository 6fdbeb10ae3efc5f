use vstd::prelude::*;
use crate::framing::deframe;
use crate::framing::spec_deframe;
use crate::layout::i32_of_u32;
use crate::layout::lcnt;
use crate::layout::lesz;
use crate::layout::phi;
use crate::layout::pkind;
use crate::layout::plo;
use crate::layout::pnull;
use crate::layout::praw;
use crate::layout::psoff;
use crate::layout::sdata;
use crate::layout::seg_words;
use crate::layout::sptr;
use crate::packing::spec_unpack;
use crate::packing::unpack;
use crate::records::DecodeError;
use crate::records::Entry;
use crate::records::IndexError;
use crate::words::bytes_range;
use crate::words::le32_at;
use crate::words::read_le32;

verus! {

// The validating decoders.  `open` checks the packing, the segment table,
// the root pointer, and every pointer reachable from it before returning a
// handle; the accessors then answer indexed queries out of the validated
// segment without re-walking the message.

/// The default traversal limit, in words: a generous finite bound for
/// ordinary messages.  Hash-table messages may legitimately be large, so
/// opening one without a limit (`None`) is an explicit caller choice.
pub const DEFAULT_TRAVERSAL_LIMIT_WORDS: u64 = 8 * 1024 * 1024;

// ---------------------------------------------------------------------
// What a decoded message means, over the unpacked segment.

/// A text pointer is absent, or a byte list, in bounds, counting at least
/// its zero terminator, which must be present.
pub open spec fn text_ok(seg: Seq<u8>, wi: int) -> bool {
    pnull(seg, wi) || {
        let s = wi + 1 + psoff(seg, wi);
        &&& pkind(seg, wi) == 1
        &&& lesz(seg, wi) == 2
        &&& lcnt(seg, wi) >= 1
        &&& 0 <= s
        &&& 8 * s + lcnt(seg, wi) <= seg.len()
        &&& seg[8 * s + lcnt(seg, wi) - 1] == 0
    }
}

/// The bytes of a text, its terminator not included.
pub open spec fn text_val(seg: Seq<u8>, wi: int) -> Seq<u8> {
    if pnull(seg, wi) {
        Seq::empty()
    } else {
        let s = wi + 1 + psoff(seg, wi);
        seg.subrange(8 * s, 8 * s + lcnt(seg, wi) - 1)
    }
}

/// Words reachable through a text pointer.
pub open spec fn text_reach(seg: Seq<u8>, wi: int) -> int {
    if pnull(seg, wi) {
        0
    } else {
        (lcnt(seg, wi) + 7) as int / 8
    }
}

/// Words reachable through the texts of entries `i..n` of the list at `l`.
pub open spec fn texts_reach(seg: Seq<u8>, l: int, n: int, i: int) -> int
    decreases n - i,
{
    if i >= n {
        0
    } else {
        text_reach(seg, l + 1 + 2 * i) + text_reach(seg, l + 2 + 2 * i) + texts_reach(
            seg,
            l,
            n,
            i + 1,
        )
    }
}

/// Both texts of entry `i` of the element section at `l` are valid.
pub open spec fn entry_texts_ok(seg: Seq<u8>, l: int, i: int) -> bool {
    text_ok(seg, l + 1 + 2 * i) && text_ok(seg, l + 2 + 2 * i)
}

/// The entries described by the list pointer at word `p`: an absent list is
/// empty; otherwise the pointer must lead to an in-bounds tag word of
/// two-pointer elements whose texts are all valid.
pub open spec fn read_entry_list(seg: Seq<u8>, p: int) -> Result<
    Seq<(Seq<u8>, Seq<u8>)>,
    DecodeError,
> {
    if pnull(seg, p) {
        Ok(Seq::empty())
    } else if pkind(seg, p) != 1 || lesz(seg, p) != 7 {
        Err(DecodeError::Malformed)
    } else {
        let l = p + 1 + psoff(seg, p);
        let d = lcnt(seg, p) as int;
        if !(0 <= l && l + 1 + d <= seg_words(seg)) {
            Err(DecodeError::Malformed)
        } else if pkind(seg, l) != 0 {
            Err(DecodeError::Malformed)
        } else if praw(seg, l) >= 0x20000000 {
            Err(DecodeError::Malformed)
        } else {
            let n = praw(seg, l) as int;
            if !(sdata(seg, l) == 0 && sptr(seg, l) == 2) {
                Err(DecodeError::SchemaMismatch)
            } else if 2 * n != d {
                Err(DecodeError::Malformed)
            } else if !(forall|i: int| 0 <= i < n ==> #[trigger] entry_texts_ok(seg, l, i)) {
                Err(DecodeError::Malformed)
            } else {
                Ok(
                    Seq::new(
                        n as nat,
                        |i: int| (text_val(seg, l + 1 + 2 * i), text_val(seg, l + 2 + 2 * i)),
                    ),
                )
            }
        }
    }
}

/// Words reachable through the entry list at word `p` (meaningful when
/// `read_entry_list` succeeds).
pub open spec fn entry_list_reach(seg: Seq<u8>, p: int) -> int {
    if pnull(seg, p) {
        0
    } else {
        let l = p + 1 + psoff(seg, p);
        let n = praw(seg, l) as int;
        1 + lcnt(seg, p) + texts_reach(seg, l, n, 0)
    }
}

/// The outcome of opening one unpacked segment as an array message.
pub open spec fn spec_open_array_seg(seg: Seq<u8>, limit: Option<u64>) -> Result<
    Seq<(Seq<u8>, Seq<u8>)>,
    DecodeError,
> {
    if seg.len() % 8 != 0 || seg_words(seg) < 1 {
        Err(DecodeError::Malformed)
    } else if pnull(seg, 0) || pkind(seg, 0) != 0 {
        Err(DecodeError::Malformed)
    } else {
        let t = 1 + psoff(seg, 0);
        if !(0 <= t && t + sdata(seg, 0) + sptr(seg, 0) <= seg_words(seg)) {
            Err(DecodeError::Malformed)
        } else if !(sdata(seg, 0) == 0 && sptr(seg, 0) == 1) {
            Err(DecodeError::SchemaMismatch)
        } else {
            match read_entry_list(seg, t) {
                Err(e) => Err(e),
                Ok(es) => {
                    let total = 1 + entry_list_reach(seg, t);
                    if limit matches Some(l) && total > l {
                        Err(DecodeError::TraversalLimitExceeded)
                    } else {
                        Ok(es)
                    }
                },
            }
        }
    }
}

/// The outcome of opening a byte buffer as an array message.
pub open spec fn spec_open_array(bytes: Seq<u8>, limit: Option<u64>) -> Result<
    Seq<(Seq<u8>, Seq<u8>)>,
    DecodeError,
> {
    match spec_unpack(bytes) {
        None => Err(DecodeError::Malformed),
        Some(unp) => match spec_deframe(unp) {
            None => Err(DecodeError::Malformed),
            Some(seg) => spec_open_array_seg(seg, limit),
        },
    }
}

// ---------------------------------------------------------------------
// Exec validation.

/// Byte ranges of one entry's key and value inside the segment.
#[derive(Debug)]
struct Span {
    koff: usize,
    klen: usize,
    voff: usize,
    vlen: usize,
}

spec fn span_wf(seg: Seq<u8>, sp: Span) -> bool {
    sp.koff + sp.klen <= seg.len() && sp.voff + sp.vlen <= seg.len()
}

spec fn span_val(seg: Seq<u8>, sp: Span) -> (Seq<u8>, Seq<u8>) {
    (
        seg.subrange(sp.koff as int, sp.koff as int + sp.klen as int),
        seg.subrange(sp.voff as int, sp.voff as int + sp.vlen as int),
    )
}

spec fn spans_view(seg: Seq<u8>, spans: Seq<Span>) -> Seq<(Seq<u8>, Seq<u8>)> {
    Seq::new(spans.len(), |i: int| span_val(seg, spans[i]))
}

/// Reads the two little-endian halves of word `wi`.
fn word_halves(seg: &Vec<u8>, wi: usize) -> (r: (u32, u32))
    requires
        8 * wi + 8 <= seg@.len(),
    ensures
        r.0 as nat == plo(seg@, wi as int),
        r.1 as nat == phi(seg@, wi as int),
{
    let n = seg.len();
    assert(8 * wi + 8 <= n);
    let lo = read_le32(seg, 8 * wi);
    let hi = read_le32(seg, 8 * wi + 4);
    (lo, hi)
}

/// Validates the text pointer at word `wi` and returns the byte range of
/// its contents and its reachable words.
#[verifier::rlimit(100)]
#[verifier::spinoff_prover]
fn check_text(seg: &Vec<u8>, wi: usize) -> (out: Option<(usize, usize, u64)>)
    requires
        seg@.len() % 8 == 0,
        8 * wi + 8 <= seg@.len(),
    ensures
        out matches Some(r) ==> {
            &&& text_ok(seg@, wi as int)
            &&& r.0 + r.1 <= seg@.len()
            &&& seg@.subrange(r.0 as int, r.0 as int + r.1 as int) == text_val(seg@, wi as int)
            &&& r.2 == text_reach(seg@, wi as int)
            &&& r.2 <= 0x4000000
        },
        out is None ==> !text_ok(seg@, wi as int),
{
    let n = seg.len();
    let (lo, hi) = word_halves(seg, wi);
    if lo == 0 && hi == 0 {
        proof {
            assert(seg@.subrange(0, 0) =~= text_val(seg@, wi as int));
        }
        return Some((0, 0, 0));
    }
    if lo % 4 != 1 {
        return None;
    }
    if hi % 8 != 2 {
        return None;
    }
    let cnt = hi / 8;
    if cnt < 1 {
        return None;
    }
    let pr = lo / 4;
    let soff: i64 = if pr < 0x20000000 {
        pr as i64
    } else {
        pr as i64 - 0x40000000
    };
    let s: i64 = wi as i64 + 1 + soff;
    if s < 0 {
        return None;
    }
    let wc = n / 8;
    proof {
        vstd::arithmetic::div_mod::lemma_fundamental_div_mod(n as int, 8);
        assert(n == 8 * wc);
    }
    if s > wc as i64 {
        proof {
            assert(8 * (s as int) + lcnt(seg@, wi as int) > n);
        }
        return None;
    }
    let s64 = s as u64;
    if cnt as u64 > n as u64 - 8 * s64 {
        return None;
    }
    let su = s as usize;
    let cu = cnt as usize;
    if seg[8 * su + cu - 1] != 0 {
        return None;
    }
    let reach = (cnt as u64 + 7) / 8;
    Some((8 * su, cu - 1, reach))
}

/// Validates the entry list at word `p`, returning the entries' byte
/// ranges and the words reachable through the list.
#[verifier::rlimit(100)]
#[verifier::spinoff_prover]
fn check_entry_list(seg: &Vec<u8>, p: usize) -> (out: Result<(Vec<Span>, u64), DecodeError>)
    requires
        seg@.len() % 8 == 0,
        8 * p + 8 <= seg@.len(),
    ensures
        out matches Ok(r) ==> {
            &&& read_entry_list(seg@, p as int) == Ok::<Seq<(Seq<u8>, Seq<u8>)>, DecodeError>(
                spans_view(seg@, r.0@),
            )
            &&& forall|i: int| 0 <= i < r.0@.len() ==> span_wf(seg@, r.0@[i])
            &&& r.0@.len() < 0x20000000
            &&& r.1 == entry_list_reach(seg@, p as int)
            &&& r.1 < 0x100000000000000
        },
        out matches Err(e) ==> read_entry_list(seg@, p as int) == Err::<
            Seq<(Seq<u8>, Seq<u8>)>,
            DecodeError,
        >(e),
{
    let n = seg.len();
    let wc = n / 8;
    proof {
        vstd::arithmetic::div_mod::lemma_fundamental_div_mod(n as int, 8);
        assert(n == 8 * wc);
    }
    let (lo, hi) = word_halves(seg, p);
    if lo == 0 && hi == 0 {
        let spans: Vec<Span> = Vec::new();
        proof {
            assert(spans_view(seg@, spans@) =~= Seq::<(Seq<u8>, Seq<u8>)>::empty());
        }
        return Ok((spans, 0));
    }
    if lo % 4 != 1 || hi % 8 != 7 {
        return Err(DecodeError::Malformed);
    }
    let d = hi / 8;
    let pr = lo / 4;
    let soff: i64 = if pr < 0x20000000 {
        pr as i64
    } else {
        pr as i64 - 0x40000000
    };
    let l64: i64 = p as i64 + 1 + soff;
    if l64 < 0 || l64 + 1 + d as i64 > wc as i64 {
        return Err(DecodeError::Malformed);
    }
    let l = l64 as usize;
    let (tlo, thi) = word_halves(seg, l);
    if tlo % 4 != 0 {
        return Err(DecodeError::Malformed);
    }
    let tn = tlo / 4;
    if tn >= 0x20000000 {
        return Err(DecodeError::Malformed);
    }
    if !(thi % 0x10000 == 0 && thi / 0x10000 == 2) {
        return Err(DecodeError::SchemaMismatch);
    }
    if 2 * (tn as u64) != d as u64 {
        return Err(DecodeError::Malformed);
    }
    let nelems = tn as usize;
    let mut spans: Vec<Span> = Vec::new();
    let mut reach_texts: u64 = 0;
    let mut i: usize = 0;
    while i < nelems
        invariant
            n == seg@.len(),
            n == 8 * wc,
            seg@.len() % 8 == 0,
            nelems == tn,
            tn < 0x20000000,
            l == l64,
            0 <= l64,
            l64 + 1 + d as int <= wc,
            d == 2 * tn,
            8 * (p as int) + 8 <= n,
            !pnull(seg@, p as int),
            pkind(seg@, p as int) == 1,
            lesz(seg@, p as int) == 7,
            lcnt(seg@, p as int) == d,
            l as int == p + 1 + psoff(seg@, p as int),
            seg_words(seg@) == wc,
            pkind(seg@, l as int) == 0,
            praw(seg@, l as int) == tn,
            sdata(seg@, l as int) == 0,
            sptr(seg@, l as int) == 2,
            i <= nelems,
            spans@.len() == i,
            forall|j: int| 0 <= j < i ==> span_wf(seg@, spans@[j]),
            forall|j: int| 0 <= j < i ==> #[trigger] entry_texts_ok(seg@, l as int, j),
            forall|j: int|
                0 <= j < i ==> span_val(seg@, spans@[j]) == (
                    text_val(seg@, l + 1 + 2 * j),
                    text_val(seg@, l + 2 + 2 * j),
                ),
            reach_texts <= i * 0x8000001,
            texts_reach(seg@, l as int, tn as int, 0) == reach_texts + texts_reach(
                seg@,
                l as int,
                tn as int,
                i as int,
            ),
        decreases nelems - i,
    {
        assert(8 * (l + 1 + 2 * i) + 8 <= n);
        assert(8 * (l + 2 + 2 * i) + 8 <= n);
        let kr = match check_text(seg, l + 1 + 2 * i) {
            Some(kr) => kr,
            None => {
                proof {
                    assert(!entry_texts_ok(seg@, l as int, i as int));
                    assert(!(forall|j: int|
                        0 <= j < tn as int ==> #[trigger] entry_texts_ok(seg@, l as int, j)));
                }
                return Err(DecodeError::Malformed);
            },
        };
        let vr = match check_text(seg, l + 2 + 2 * i) {
            Some(vr) => vr,
            None => {
                proof {
                    assert(!entry_texts_ok(seg@, l as int, i as int));
                    assert(!(forall|j: int|
                        0 <= j < tn as int ==> #[trigger] entry_texts_ok(seg@, l as int, j)));
                }
                return Err(DecodeError::Malformed);
            },
        };
        spans.push(
            Span { koff: kr.0, klen: kr.1, voff: vr.0, vlen: vr.1 },
        );
        proof {
            assert(entry_texts_ok(seg@, l as int, i as int));
            assert(texts_reach(seg@, l as int, tn as int, i as int) == text_reach(
                seg@,
                l + 1 + 2 * i,
            ) + text_reach(seg@, l + 2 + 2 * i) + texts_reach(
                seg@,
                l as int,
                tn as int,
                i as int + 1,
            ));
            assert((i + 1) * 0x8000001 == i * 0x8000001 + 0x8000001) by (nonlinear_arith);
        }
        reach_texts = reach_texts + kr.2 + vr.2;
        i = i + 1;
    }
    proof {
        assert(texts_reach(seg@, l as int, tn as int, nelems as int) == 0);
        assert(reach_texts <= tn as int * 0x8000001);
        assert(tn as int * 0x8000001 < 0x20000000 * 0x8000001) by (nonlinear_arith)
            requires
                tn < 0x20000000u32,
        ;
        assert(read_entry_list(seg@, p as int) == Ok::<Seq<(Seq<u8>, Seq<u8>)>, DecodeError>(
            Seq::new(
                tn as nat,
                |j: int| (text_val(seg@, l + 1 + 2 * j), text_val(seg@, l + 2 + 2 * j)),
            ),
        ));
        assert(spans_view(seg@, spans@) =~= Seq::new(
            tn as nat,
            |j: int| (text_val(seg@, l + 1 + 2 * j), text_val(seg@, l + 2 + 2 * j)),
        ));
    }
    let reach = 1 + d as u64 + reach_texts;
    Ok((spans, reach))
}

// ---------------------------------------------------------------------
// The array reader.

/// A validated, read-only handle onto an array message.
#[derive(Debug)]
pub struct ArrayReader {
    seg: Vec<u8>,
    spans: Vec<Span>,
}

impl View for ArrayReader {
    type V = Seq<(Seq<u8>, Seq<u8>)>;

    closed spec fn view(&self) -> Seq<(Seq<u8>, Seq<u8>)> {
        spans_view(self.seg@, self.spans@)
    }
}

impl ArrayReader {
    #[verifier::type_invariant]
    spec fn wf(self) -> bool {
        &&& self.spans@.len() < 0x20000000
        &&& forall|i: int| 0 <= i < self.spans@.len() ==> span_wf(self.seg@, self.spans@[i])
    }

    /// Validates `data` as an array message; on success the handle's view
    /// is the decoded sequence of pairs.
    pub fn open(data: &Vec<u8>, limit: Option<u64>) -> (out: Result<ArrayReader, DecodeError>)
        ensures
            out matches Ok(h) ==> spec_open_array(data@, limit) == Ok::<
                Seq<(Seq<u8>, Seq<u8>)>,
                DecodeError,
            >(h@),
            out matches Err(e) ==> spec_open_array(data@, limit) == Err::<
                Seq<(Seq<u8>, Seq<u8>)>,
                DecodeError,
            >(e),
    {
        let unp = match unpack(data) {
            Some(unp) => unp,
            None => {
                return Err(DecodeError::Malformed);
            },
        };
        let seg = match deframe(&unp) {
            Some(seg) => seg,
            None => {
                return Err(DecodeError::Malformed);
            },
        };
        let n = seg.len();
        if n % 8 != 0 || n / 8 < 1 {
            return Err(DecodeError::Malformed);
        }
        let wc = n / 8;
        proof {
            vstd::arithmetic::div_mod::lemma_fundamental_div_mod(n as int, 8);
            assert(n == 8 * wc);
        }
        let (lo, hi) = word_halves(&seg, 0);
        if lo == 0 && hi == 0 {
            return Err(DecodeError::Malformed);
        }
        if lo % 4 != 0 {
            return Err(DecodeError::Malformed);
        }
        let pr = lo / 4;
        let soff: i64 = if pr < 0x20000000 {
            pr as i64
        } else {
            pr as i64 - 0x40000000
        };
        let t64: i64 = 1 + soff;
        let ds = hi % 0x10000;
        let ps = hi / 0x10000;
        if t64 < 0 || t64 + ds as i64 + ps as i64 > wc as i64 {
            return Err(DecodeError::Malformed);
        }
        if !(ds == 0 && ps == 1) {
            return Err(DecodeError::SchemaMismatch);
        }
        let t = t64 as usize;
        assert(8 * t + 8 <= n);
        let (spans, reach) = match check_entry_list(&seg, t) {
            Ok(r) => r,
            Err(e) => {
                return Err(e);
            },
        };
        let total = 1 + reach;
        match limit {
            Some(lim) => {
                if total > lim {
                    return Err(DecodeError::TraversalLimitExceeded);
                }
            },
            None => {},
        }
        let out = ArrayReader { seg, spans };
        Ok(out)
    }

    /// Number of entries.
    pub fn size(&self) -> (r: u32)
        ensures
            r as nat == self@.len(),
    {
        proof {
            use_type_invariant(self);
        }
        self.spans.len() as u32
    }

    /// The pair at `index`; `IndexError` exactly when `index` is at or past
    /// the element count.
    pub fn get(&self, index: u32) -> (out: Result<Entry, IndexError>)
        ensures
            (index as nat) < self@.len() ==> (out matches Ok(e) && e@ == self@[index as int]),
            (index as nat) >= self@.len() ==> out matches Err(_),
    {
        proof {
            use_type_invariant(self);
        }
        if (index as usize) < self.spans.len() {
            let sp = &self.spans[index as usize];
            let key = bytes_range(&self.seg, sp.koff, sp.klen);
            let value = bytes_range(&self.seg, sp.voff, sp.vlen);
            Ok(Entry { key, value })
        } else {
            Err(IndexError)
        }
    }
}

// ---------------------------------------------------------------------
// The hash-table reader.

/// The seeds described by the list pointer at word `p`: an absent list is
/// empty; otherwise a 4-byte-element list whose content words lie in
/// bounds.
pub open spec fn read_seed_list(seg: Seq<u8>, p: int) -> Result<Seq<i32>, DecodeError> {
    if pnull(seg, p) {
        Ok(Seq::empty())
    } else if pkind(seg, p) != 1 || lesz(seg, p) != 4 {
        Err(DecodeError::Malformed)
    } else {
        let s = p + 1 + psoff(seg, p);
        let ns = lcnt(seg, p) as int;
        if !(0 <= s && s + (ns + 1) / 2 <= seg_words(seg)) {
            Err(DecodeError::Malformed)
        } else {
            Ok(Seq::new(ns as nat, |i: int| i32_of_u32(le32_at(seg, 8 * s + 4 * i))))
        }
    }
}

/// Words reachable through the seed list at word `p`.
pub open spec fn seed_list_reach(seg: Seq<u8>, p: int) -> int {
    if pnull(seg, p) {
        0
    } else {
        (lcnt(seg, p) as int + 1) / 2
    }
}

/// The outcome of opening one unpacked segment as a hash-table message.
pub open spec fn spec_open_hash_table_seg(seg: Seq<u8>, limit: Option<u64>) -> Result<
    (Seq<(Seq<u8>, Seq<u8>)>, Seq<i32>, i32, i32),
    DecodeError,
> {
    if seg.len() % 8 != 0 || seg_words(seg) < 1 {
        Err(DecodeError::Malformed)
    } else if pnull(seg, 0) || pkind(seg, 0) != 0 {
        Err(DecodeError::Malformed)
    } else {
        let t = 1 + psoff(seg, 0);
        if !(0 <= t && t + sdata(seg, 0) + sptr(seg, 0) <= seg_words(seg)) {
            Err(DecodeError::Malformed)
        } else if !(sdata(seg, 0) == 1 && sptr(seg, 0) == 2) {
            Err(DecodeError::SchemaMismatch)
        } else {
            let m = i32_of_u32(plo(seg, t));
            let r = i32_of_u32(phi(seg, t));
            match read_entry_list(seg, t + 1) {
                Err(e) => Err(e),
                Ok(es) => match read_seed_list(seg, t + 2) {
                    Err(e) => Err(e),
                    Ok(sds) => {
                        let total = 3 + entry_list_reach(seg, t + 1) + seed_list_reach(
                            seg,
                            t + 2,
                        );
                        if limit matches Some(lv) && total > lv {
                            Err(DecodeError::TraversalLimitExceeded)
                        } else {
                            Ok((es, sds, m, r))
                        }
                    },
                },
            }
        }
    }
}

/// The outcome of opening a byte buffer as a hash-table message.
pub open spec fn spec_open_hash_table(bytes: Seq<u8>, limit: Option<u64>) -> Result<
    (Seq<(Seq<u8>, Seq<u8>)>, Seq<i32>, i32, i32),
    DecodeError,
> {
    match spec_unpack(bytes) {
        None => Err(DecodeError::Malformed),
        Some(unp) => match spec_deframe(unp) {
            None => Err(DecodeError::Malformed),
            Some(seg) => spec_open_hash_table_seg(seg, limit),
        },
    }
}

/// The seeds at byte offset `off`.
spec fn seed_seq(seg: Seq<u8>, off: int, ns: int) -> Seq<i32> {
    Seq::new(ns as nat, |i: int| i32_of_u32(le32_at(seg, off + 4 * i)))
}

/// The signed value of an unsigned 32-bit wire image.
fn u32_to_i32(u: u32) -> (s: i32)
    ensures
        s == i32_of_u32(u as nat),
{
    if u < 0x80000000 {
        u as i32
    } else {
        ((u as i64) - 0x100000000i64) as i32
    }
}

/// Validates the seed list at word `p`, returning the byte offset and
/// count of the seeds and the words reachable through the list.
#[verifier::rlimit(100)]
#[verifier::spinoff_prover]
fn check_seed_list(seg: &Vec<u8>, p: usize) -> (out: Result<(usize, usize, u64), DecodeError>)
    requires
        seg@.len() % 8 == 0,
        8 * p + 8 <= seg@.len(),
    ensures
        out matches Ok(r) ==> {
            &&& read_seed_list(seg@, p as int) == Ok::<Seq<i32>, DecodeError>(
                seed_seq(seg@, r.0 as int, r.1 as int),
            )
            &&& r.0 + 4 * r.1 <= seg@.len()
            &&& r.1 < 0x20000000
            &&& r.2 == seed_list_reach(seg@, p as int)
            &&& r.2 <= 0x10000000
        },
        out matches Err(e) ==> read_seed_list(seg@, p as int) == Err::<Seq<i32>, DecodeError>(e),
{
    let n = seg.len();
    let wc = n / 8;
    proof {
        vstd::arithmetic::div_mod::lemma_fundamental_div_mod(n as int, 8);
        assert(n == 8 * wc);
    }
    let (lo, hi) = word_halves(seg, p);
    if lo == 0 && hi == 0 {
        proof {
            assert(seed_seq(seg@, 0, 0) =~= Seq::<i32>::empty());
        }
        return Ok((0, 0, 0));
    }
    if lo % 4 != 1 || hi % 8 != 4 {
        return Err(DecodeError::Malformed);
    }
    let ns = hi / 8;
    let pr = lo / 4;
    let soff: i64 = if pr < 0x20000000 {
        pr as i64
    } else {
        pr as i64 - 0x40000000
    };
    let s: i64 = p as i64 + 1 + soff;
    if s < 0 {
        return Err(DecodeError::Malformed);
    }
    if s > wc as i64 {
        return Err(DecodeError::Malformed);
    }
    let s64 = s as u64;
    let half = (ns as u64 + 1) / 2;
    if half > wc as u64 - s64 {
        return Err(DecodeError::Malformed);
    }
    proof {
        vstd::arithmetic::div_mod::lemma_fundamental_div_mod(ns as int + 1, 2);
        assert(4 * (ns as int) <= 8 * ((ns as int + 1) / 2));
    }
    let su = s as usize;
    Ok((8 * su, ns as usize, half))
}

/// A validated, read-only handle onto a hash-table message.
#[derive(Debug)]
pub struct HashTableReader {
    seg: Vec<u8>,
    spans: Vec<Span>,
    seeds_off: usize,
    seeds_cnt: usize,
    m_val: i32,
    r_val: i32,
}

impl View for HashTableReader {
    type V = (Seq<(Seq<u8>, Seq<u8>)>, Seq<i32>, i32, i32);

    closed spec fn view(&self) -> (Seq<(Seq<u8>, Seq<u8>)>, Seq<i32>, i32, i32) {
        (
            spans_view(self.seg@, self.spans@),
            seed_seq(self.seg@, self.seeds_off as int, self.seeds_cnt as int),
            self.m_val,
            self.r_val,
        )
    }
}

impl HashTableReader {
    #[verifier::type_invariant]
    spec fn wf(self) -> bool {
        &&& self.spans@.len() < 0x20000000
        &&& forall|i: int| 0 <= i < self.spans@.len() ==> span_wf(self.seg@, self.spans@[i])
        &&& self.seeds_off + 4 * self.seeds_cnt <= self.seg@.len()
        &&& self.seeds_cnt < 0x20000000
    }

    /// Validates `data` as a hash-table message; on success the handle's
    /// view is the decoded entries, seeds and scalars.
    pub fn open(data: &Vec<u8>, limit: Option<u64>) -> (out: Result<HashTableReader, DecodeError>)
        ensures
            out matches Ok(h) ==> spec_open_hash_table(data@, limit) == Ok::<
                (Seq<(Seq<u8>, Seq<u8>)>, Seq<i32>, i32, i32),
                DecodeError,
            >(h@),
            out matches Err(e) ==> spec_open_hash_table(data@, limit) == Err::<
                (Seq<(Seq<u8>, Seq<u8>)>, Seq<i32>, i32, i32),
                DecodeError,
            >(e),
    {
        let unp = match unpack(data) {
            Some(unp) => unp,
            None => {
                return Err(DecodeError::Malformed);
            },
        };
        let seg = match deframe(&unp) {
            Some(seg) => seg,
            None => {
                return Err(DecodeError::Malformed);
            },
        };
        let n = seg.len();
        if n % 8 != 0 || n / 8 < 1 {
            return Err(DecodeError::Malformed);
        }
        let wc = n / 8;
        proof {
            vstd::arithmetic::div_mod::lemma_fundamental_div_mod(n as int, 8);
            assert(n == 8 * wc);
        }
        let (lo, hi) = word_halves(&seg, 0);
        if lo == 0 && hi == 0 {
            return Err(DecodeError::Malformed);
        }
        if lo % 4 != 0 {
            return Err(DecodeError::Malformed);
        }
        let pr = lo / 4;
        let soff: i64 = if pr < 0x20000000 {
            pr as i64
        } else {
            pr as i64 - 0x40000000
        };
        let t64: i64 = 1 + soff;
        let ds = hi % 0x10000;
        let ps = hi / 0x10000;
        if t64 < 0 || t64 + ds as i64 + ps as i64 > wc as i64 {
            return Err(DecodeError::Malformed);
        }
        if !(ds == 1 && ps == 2) {
            return Err(DecodeError::SchemaMismatch);
        }
        let t = t64 as usize;
        assert(8 * t + 8 <= n);
        assert(8 * (t + 1) + 8 <= n);
        assert(8 * (t + 2) + 8 <= n);
        let (mlo, mhi) = word_halves(&seg, t);
        let m_val = u32_to_i32(mlo);
        let r_val = u32_to_i32(mhi);
        let (spans, reach_e) = match check_entry_list(&seg, t + 1) {
            Ok(r) => r,
            Err(e) => {
                return Err(e);
            },
        };
        let (seeds_off, seeds_cnt, reach_s) = match check_seed_list(&seg, t + 2) {
            Ok(r) => r,
            Err(e) => {
                return Err(e);
            },
        };
        let total = 3 + reach_e + reach_s;
        match limit {
            Some(lim) => {
                if total > lim {
                    return Err(DecodeError::TraversalLimitExceeded);
                }
            },
            None => {},
        }
        let out = HashTableReader { seg, spans, seeds_off, seeds_cnt, m_val, r_val };
        Ok(out)
    }

    /// Number of entries.
    pub fn size(&self) -> (r: u32)
        ensures
            r as nat == self@.0.len(),
    {
        proof {
            use_type_invariant(self);
        }
        self.spans.len() as u32
    }

    /// The pair at `index`; `IndexError` exactly when `index` is at or
    /// past the entry count.
    pub fn entry(&self, index: u32) -> (out: Result<Entry, IndexError>)
        ensures
            (index as nat) < self@.0.len() ==> (out matches Ok(e) && e@ == self@.0[index as int]),
            (index as nat) >= self@.0.len() ==> out matches Err(_),
    {
        proof {
            use_type_invariant(self);
        }
        if (index as usize) < self.spans.len() {
            let sp = &self.spans[index as usize];
            let key = bytes_range(&self.seg, sp.koff, sp.klen);
            let value = bytes_range(&self.seg, sp.voff, sp.vlen);
            Ok(Entry { key, value })
        } else {
            Err(IndexError)
        }
    }

    /// Number of seeds; its bound is independent of the entry count.
    pub fn seed_count(&self) -> (r: u32)
        ensures
            r as nat == self@.1.len(),
    {
        proof {
            use_type_invariant(self);
        }
        self.seeds_cnt as u32
    }

    /// The seed at `index`; `IndexError` exactly when `index` is at or
    /// past the seed count.
    pub fn seed(&self, index: u32) -> (out: Result<i32, IndexError>)
        ensures
            (index as nat) < self@.1.len() ==> (out matches Ok(s) && s == self@.1[index as int]),
            (index as nat) >= self@.1.len() ==> out matches Err(_),
    {
        proof {
            use_type_invariant(self);
        }
        if (index as usize) < self.seeds_cnt {
            let sl = self.seg.len();
            assert(self.seeds_off + 4 * (index as usize) + 4 <= sl);
            let u = read_le32(&self.seg, self.seeds_off + 4 * (index as usize));
            Ok(u32_to_i32(u))
        } else {
            Err(IndexError)
        }
    }

    /// The first-level hash parameter.
    pub fn m(&self) -> (r: i32)
        ensures
            r == self@.2,
    {
        self.m_val
    }

    /// The second-level hash parameter.
    pub fn r(&self) -> (r: i32)
        ensures
            r == self@.3,
    {
        self.r_val
    }
}

} // verus!
