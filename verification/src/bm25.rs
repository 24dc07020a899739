//! The BM25 index: term rows of raw frequencies, a document-length table, and
//! a frozen table of precomputed scores, kept mutually consistent under
//! insertion, freezing and deletion.
//!
//! Terms and document identifiers are byte strings. The mathematical model of
//! every table is an association sequence of `(key, value)` pairs with
//! pairwise-distinct keys; an absent key means a value of zero.

use vstd::prelude::*;

verus! {

use crate::score::spec_score;
use crate::score::score_of;
use crate::score::spec_add_clamp;
use crate::score::add_clamp;
use rayon::prelude::ParallelIterator;
use rayon::prelude::IntoParallelRefIterator;

/// One document's raw frequency for one term.
#[derive(Debug, PartialEq)]
pub struct Posting {
    pub doc: Vec<u8>,
    pub freq: u32,
}

/// One term's row in the term index.
#[derive(Debug, PartialEq)]
pub struct TermRow {
    pub term: Vec<u8>,
    pub postings: Vec<Posting>,
}

/// One document's token count.
#[derive(Debug, PartialEq)]
pub struct DocLen {
    pub doc: Vec<u8>,
    pub len: u32,
}

/// One document's precomputed score for one term.
#[derive(Debug, PartialEq)]
pub struct ScoreEntry {
    pub doc: Vec<u8>,
    pub score: u64,
}

/// One term's row in the frozen score table.
#[derive(Debug, PartialEq)]
pub struct ScoreRow {
    pub term: Vec<u8>,
    pub entries: Vec<ScoreEntry>,
}

/// The whole per-tenant index: term index, document lengths, frozen scores,
/// smoothing constants in thousandths, and the average-length fraction
/// captured at the last freeze (token total over document count).
#[derive(Debug, PartialEq)]
pub struct BM25 {
    pub index_map: Vec<TermRow>,
    pub doc_len_map: Vec<DocLen>,
    pub freeze_map: Vec<ScoreRow>,
    pub k1_milli: u64,
    pub b_milli: u64,
    pub avg_len_num: u64,
    pub avg_len_den: u64,
}

// ---------------------------------------------------------------------------
// Views: every table is modelled as a sequence of key/value pairs.
// ---------------------------------------------------------------------------

pub open spec fn postings_view(ps: Seq<Posting>) -> Seq<(Seq<u8>, u64)> {
    ps.map(|i: int, p: Posting| (p.doc@, p.freq as u64))
}

pub open spec fn entries_view(es: Seq<ScoreEntry>) -> Seq<(Seq<u8>, u64)> {
    es.map(|i: int, e: ScoreEntry| (e.doc@, e.score))
}

pub open spec fn lens_view(ls: Seq<DocLen>) -> Seq<(Seq<u8>, u64)> {
    ls.map(|i: int, l: DocLen| (l.doc@, l.len as u64))
}

pub open spec fn index_view(rs: Seq<TermRow>) -> Seq<(Seq<u8>, Seq<(Seq<u8>, u64)>)> {
    rs.map(|i: int, r: TermRow| (r.term@, postings_view(r.postings@)))
}

pub open spec fn frozen_view(fs: Seq<ScoreRow>) -> Seq<(Seq<u8>, Seq<(Seq<u8>, u64)>)> {
    fs.map(|i: int, r: ScoreRow| (r.term@, entries_view(r.entries@)))
}

// ---------------------------------------------------------------------------
// Lookup: first match wins; an absent key has value zero / an empty row.
// ---------------------------------------------------------------------------

pub open spec fn has_key(v: Seq<(Seq<u8>, u64)>, k: Seq<u8>) -> bool {
    exists|i: int| 0 <= i < v.len() && v[i].0 == k
}

pub open spec fn val_of(v: Seq<(Seq<u8>, u64)>, k: Seq<u8>) -> int
    decreases v.len(),
{
    if v.len() == 0 {
        0
    } else if v[0].0 == k {
        v[0].1 as int
    } else {
        val_of(v.skip(1), k)
    }
}

pub open spec fn has_row(v: Seq<(Seq<u8>, Seq<(Seq<u8>, u64)>)>, t: Seq<u8>) -> bool {
    exists|i: int| 0 <= i < v.len() && v[i].0 == t
}

pub open spec fn row_of(v: Seq<(Seq<u8>, Seq<(Seq<u8>, u64)>)>, t: Seq<u8>) -> Seq<(Seq<u8>, u64)>
    decreases v.len(),
{
    if v.len() == 0 {
        Seq::empty()
    } else if v[0].0 == t {
        v[0].1
    } else {
        row_of(v.skip(1), t)
    }
}

/// The raw term frequency of document `d` under term `t`.
pub open spec fn tf_of(iv: Seq<(Seq<u8>, Seq<(Seq<u8>, u64)>)>, t: Seq<u8>, d: Seq<u8>) -> int {
    val_of(row_of(iv, t), d)
}

pub open spec fn keys_distinct(v: Seq<(Seq<u8>, u64)>) -> bool {
    forall|i: int, j: int| 0 <= i < j < v.len() ==> v[i].0 != v[j].0
}

pub open spec fn row_keys_distinct(v: Seq<(Seq<u8>, Seq<(Seq<u8>, u64)>)>) -> bool {
    forall|i: int, j: int| 0 <= i < j < v.len() ==> v[i].0 != v[j].0
}

// ---------------------------------------------------------------------------
// Lookup lemmas.
// ---------------------------------------------------------------------------

pub proof fn lemma_val_at(v: Seq<(Seq<u8>, u64)>, k: Seq<u8>, i: int)
    requires
        keys_distinct(v),
        0 <= i < v.len(),
        v[i].0 == k,
    ensures
        has_key(v, k),
        val_of(v, k) == v[i].1 as int,
    decreases v.len(),
{
    if i > 0 {
        assert(keys_distinct(v.skip(1))) by {
            assert(forall|a: int, b: int|
                0 <= a < b < v.skip(1).len() ==> v.skip(1)[a] == v[a + 1] && v.skip(1)[b] == v[b
                    + 1]);
        }
        lemma_val_at(v.skip(1), k, i - 1);
    }
}

pub proof fn lemma_val_absent(v: Seq<(Seq<u8>, u64)>, k: Seq<u8>)
    requires
        !has_key(v, k),
    ensures
        val_of(v, k) == 0,
    decreases v.len(),
{
    if v.len() > 0 {
        assert(!has_key(v.skip(1), k)) by {
            assert(forall|a: int| 0 <= a < v.skip(1).len() ==> v.skip(1)[a] == v[a + 1]);
        }
        lemma_val_absent(v.skip(1), k);
    }
}

pub proof fn lemma_row_at(v: Seq<(Seq<u8>, Seq<(Seq<u8>, u64)>)>, t: Seq<u8>, i: int)
    requires
        row_keys_distinct(v),
        0 <= i < v.len(),
        v[i].0 == t,
    ensures
        has_row(v, t),
        row_of(v, t) == v[i].1,
    decreases v.len(),
{
    if i > 0 {
        assert(row_keys_distinct(v.skip(1))) by {
            assert(forall|a: int, b: int|
                0 <= a < b < v.skip(1).len() ==> v.skip(1)[a] == v[a + 1] && v.skip(1)[b] == v[b
                    + 1]);
        }
        lemma_row_at(v.skip(1), t, i - 1);
    }
}

pub proof fn lemma_row_absent(v: Seq<(Seq<u8>, Seq<(Seq<u8>, u64)>)>, t: Seq<u8>)
    requires
        !has_row(v, t),
    ensures
        row_of(v, t) == Seq::<(Seq<u8>, u64)>::empty(),
    decreases v.len(),
{
    if v.len() > 0 {
        assert(!has_row(v.skip(1), t)) by {
            assert(forall|a: int| 0 <= a < v.skip(1).len() ==> v.skip(1)[a] == v[a + 1]);
        }
        lemma_row_absent(v.skip(1), t);
    }
}

// ---------------------------------------------------------------------------
// Well-formedness.
// ---------------------------------------------------------------------------

/// A frequency row is sound: distinct documents, each with a frequency of at
/// least one that fits a 32-bit count, and each present in the length table.
pub open spec fn prow_ok(row: Seq<(Seq<u8>, u64)>, lens: Seq<(Seq<u8>, u64)>) -> bool {
    &&& row.len() >= 1
    &&& keys_distinct(row)
    &&& forall|k: int|
        0 <= k < row.len() ==> 1 <= (#[trigger] row[k]).1 <= u32::MAX && has_key(lens, row[k].0)
}

/// A score row is sound: at least one entry, distinct documents.
pub open spec fn srow_ok(row: Seq<(Seq<u8>, u64)>) -> bool {
    &&& row.len() >= 1
    &&& keys_distinct(row)
}

// ---------------------------------------------------------------------------
// Executable lookups.
// ---------------------------------------------------------------------------

/// Byte-string equality.
pub fn bytes_eq(a: &Vec<u8>, b: &Vec<u8>) -> (r: bool)
    ensures
        r == (a@ == b@),
{
    let r = a == b;
    proof {
        if r {
            assert(a@ =~= b@);
        }
    }
    r
}

fn find_posting(ps: &Vec<Posting>, d: &Vec<u8>) -> (r: Option<usize>)
    ensures
        match r {
            Some(i) => i < ps@.len() && ps@[i as int].doc@ == d@,
            None => forall|j: int| 0 <= j < ps@.len() ==> (#[trigger] ps@[j]).doc@ != d@,
        },
{
    let mut i: usize = 0;
    while i < ps.len()
        invariant
            i <= ps@.len(),
            forall|j: int| 0 <= j < i ==> (#[trigger] ps@[j]).doc@ != d@,
        decreases ps@.len() - i,
    {
        if bytes_eq(&ps[i].doc, d) {
            return Some(i);
        }
        i = i + 1;
    }
    None
}

fn find_term_row(rs: &Vec<TermRow>, t: &Vec<u8>) -> (r: Option<usize>)
    ensures
        match r {
            Some(i) => i < rs@.len() && rs@[i as int].term@ == t@,
            None => forall|j: int| 0 <= j < rs@.len() ==> (#[trigger] rs@[j]).term@ != t@,
        },
{
    let mut i: usize = 0;
    while i < rs.len()
        invariant
            i <= rs@.len(),
            forall|j: int| 0 <= j < i ==> (#[trigger] rs@[j]).term@ != t@,
        decreases rs@.len() - i,
    {
        if bytes_eq(&rs[i].term, t) {
            return Some(i);
        }
        i = i + 1;
    }
    None
}

pub(crate) fn find_doc_len(ls: &Vec<DocLen>, d: &Vec<u8>) -> (r: Option<usize>)
    ensures
        match r {
            Some(i) => i < ls@.len() && ls@[i as int].doc@ == d@,
            None => forall|j: int| 0 <= j < ls@.len() ==> (#[trigger] ls@[j]).doc@ != d@,
        },
{
    let mut i: usize = 0;
    while i < ls.len()
        invariant
            i <= ls@.len(),
            forall|j: int| 0 <= j < i ==> (#[trigger] ls@[j]).doc@ != d@,
        decreases ls@.len() - i,
    {
        if bytes_eq(&ls[i].doc, d) {
            return Some(i);
        }
        i = i + 1;
    }
    None
}

fn find_score_row(fs: &Vec<ScoreRow>, t: &Vec<u8>) -> (r: Option<usize>)
    ensures
        match r {
            Some(i) => i < fs@.len() && fs@[i as int].term@ == t@,
            None => forall|j: int| 0 <= j < fs@.len() ==> (#[trigger] fs@[j]).term@ != t@,
        },
{
    let mut i: usize = 0;
    while i < fs.len()
        invariant
            i <= fs@.len(),
            forall|j: int| 0 <= j < i ==> (#[trigger] fs@[j]).term@ != t@,
        decreases fs@.len() - i,
    {
        if bytes_eq(&fs[i].term, t) {
            return Some(i);
        }
        i = i + 1;
    }
    None
}

/// Overwrites or creates the length entry for `id`, leaving every other
/// document's entry as it was.
fn upsert_len(ls: &mut Vec<DocLen>, id: &Vec<u8>, n: u32)
    requires
        keys_distinct(lens_view(old(ls)@)),
    ensures
        keys_distinct(lens_view(final(ls)@)),
        old(ls)@.len() <= final(ls)@.len() <= old(ls)@.len() + 1,
        has_key(lens_view(final(ls)@), id@),
        val_of(lens_view(final(ls)@), id@) == n as int,
        forall|d: Seq<u8>|
            d != id@ ==> has_key(lens_view(final(ls)@), d) == has_key(lens_view(old(ls)@), d),
        forall|d: Seq<u8>|
            d != id@ ==> val_of(lens_view(final(ls)@), d) == val_of(lens_view(old(ls)@), d),
        forall|d: Seq<u8>| has_key(lens_view(old(ls)@), d) ==> has_key(lens_view(final(ls)@), d),
{
    let ghost ov = lens_view(old(ls)@);
    match find_doc_len(ls, id) {
        Some(i) => {
            ls[i] = DocLen { doc: id.clone(), len: n };
            proof {
                let nv = lens_view(ls@);
                assert(nv.len() == ov.len());
                assert(forall|a: int| 0 <= a < nv.len() && a != i ==> nv[a] == ov[a]);
                assert(nv[i as int].0 == id@ && ov[i as int].0 == id@);
                assert(keys_distinct(nv));
                lemma_val_at(nv, id@, i as int);
                assert forall|d: Seq<u8>| d != id@ implies has_key(nv, d) == has_key(ov, d)
                    && val_of(nv, d) == val_of(ov, d) by {
                    assert(forall|a: int| 0 <= a < nv.len() ==> nv[a].0 == ov[a].0);
                    if has_key(ov, d) {
                        let j = choose|j: int| 0 <= j < ov.len() && ov[j].0 == d;
                        assert(j != i);
                        lemma_val_at(ov, d, j);
                        lemma_val_at(nv, d, j);
                    } else {
                        assert(!has_key(nv, d));
                        lemma_val_absent(ov, d);
                        lemma_val_absent(nv, d);
                    }
                }
            }
        },
        None => {
            let ghost olen = ls@.len();
            ls.push(DocLen { doc: id.clone(), len: n });
            proof {
                let nv = lens_view(ls@);
                assert(nv.len() == ov.len() + 1);
                assert(forall|a: int| 0 <= a < ov.len() ==> nv[a] == ov[a]);
                assert(nv[olen as int].0 == id@);
                assert(forall|a: int| 0 <= a < ov.len() ==> ov[a].0 != id@);
                assert(keys_distinct(nv));
                lemma_val_at(nv, id@, olen as int);
                assert forall|d: Seq<u8>| d != id@ implies has_key(nv, d) == has_key(ov, d)
                    && val_of(nv, d) == val_of(ov, d) by {
                    if has_key(ov, d) {
                        let j = choose|j: int| 0 <= j < ov.len() && ov[j].0 == d;
                        lemma_val_at(ov, d, j);
                        lemma_val_at(nv, d, j);
                    } else {
                        assert(!has_key(nv, d));
                        lemma_val_absent(ov, d);
                        lemma_val_absent(nv, d);
                    }
                }
            }
        },
    }
}

// ---------------------------------------------------------------------------
// Insertion.
// ---------------------------------------------------------------------------

/// How many times token `t` occurs in `doc`.
pub open spec fn count_tok(doc: Seq<Vec<u8>>, t: Seq<u8>) -> int
    decreases doc.len(),
{
    if doc.len() == 0 {
        0
    } else {
        (if doc[0]@ == t {
            1int
        } else {
            0int
        }) + count_tok(doc.skip(1), t)
    }
}

pub proof fn lemma_count_tok_bounds(doc: Seq<Vec<u8>>, t: Seq<u8>)
    ensures
        0 <= count_tok(doc, t) <= doc.len(),
    decreases doc.len(),
{
    if doc.len() > 0 {
        lemma_count_tok_bounds(doc.skip(1), t);
    }
}

pub proof fn lemma_count_tok_push(doc: Seq<Vec<u8>>, x: Vec<u8>, t: Seq<u8>)
    ensures
        count_tok(doc.push(x), t) == count_tok(doc, t) + (if x@ == t {
            1int
        } else {
            0int
        }),
    decreases doc.len(),
{
    let s = doc.push(x);
    if doc.len() == 0 {
        assert(s[0] == x);
        assert(s.skip(1) =~= Seq::<Vec<u8>>::empty());
        assert(count_tok(s.skip(1), t) == 0);
        assert(count_tok(s, t) == (if x@ == t {
            1int
        } else {
            0int
        }) + count_tok(s.skip(1), t));
    } else {
        assert(s[0] == doc[0]);
        assert(s.skip(1) =~= doc.skip(1).push(x));
        lemma_count_tok_push(doc.skip(1), x, t);
        assert(count_tok(s, t) == (if doc[0]@ == t {
            1int
        } else {
            0int
        }) + count_tok(s.skip(1), t));
    }
}

/// Returns `ps` with the frequency of `id` one higher, creating the entry at
/// frequency one when absent.
fn bump_postings(ps: &Vec<Posting>, id: &Vec<u8>) -> (r: Vec<Posting>)
    requires
        keys_distinct(postings_view(ps@)),
        val_of(postings_view(ps@), id@) + 1 <= u32::MAX,
        forall|k: int| 0 <= k < ps@.len() ==> 1 <= (#[trigger] postings_view(ps@)[k]).1,
    ensures
        keys_distinct(postings_view(r@)),
        r@.len() >= 1,
        forall|k: int|
            0 <= k < r@.len() ==> 1 <= (#[trigger] postings_view(r@)[k]).1 <= u32::MAX,
        has_key(postings_view(r@), id@),
        val_of(postings_view(r@), id@) == val_of(postings_view(ps@), id@) + 1,
        forall|d: Seq<u8>|
            d != id@ ==> has_key(postings_view(r@), d) == has_key(postings_view(ps@), d),
        forall|d: Seq<u8>|
            d != id@ ==> val_of(postings_view(r@), d) == val_of(postings_view(ps@), d),
        forall|d: Seq<u8>|
            has_key(postings_view(r@), d) ==> has_key(postings_view(ps@), d) || d == id@,
{
    let ghost ov = postings_view(ps@);
    let mut out: Vec<Posting> = Vec::new();
    match find_posting(ps, id) {
        Some(pi) => {
            proof {
                lemma_val_at(ov, id@, pi as int);
            }
            let mut k: usize = 0;
            while k < ps.len()
                invariant
                    out@.len() == k <= ps@.len(),
                    pi < ps@.len(),
                    ps@[pi as int].doc@ == id@,
                    ps@[pi as int].freq + 1 <= u32::MAX,
                    forall|j: int|
                        0 <= j < k ==> (#[trigger] out@[j]).doc@ == ps@[j].doc@,
                    forall|j: int|
                        0 <= j < k ==> (#[trigger] out@[j]).freq == (if j == pi {
                            ps@[j].freq + 1
                        } else {
                            ps@[j].freq as int
                        }),
                decreases ps@.len() - k,
            {
                let f = ps[k].freq;
                let nf = if k == pi {
                    f + 1
                } else {
                    f
                };
                out.push(Posting { doc: ps[k].doc.clone(), freq: nf });
                k = k + 1;
            }
            proof {
                let nv = postings_view(out@);
                assert(nv.len() == ov.len());
                assert(forall|a: int| 0 <= a < nv.len() ==> nv[a].0 == ov[a].0);
                assert(forall|a: int|
                    0 <= a < nv.len() && a != pi ==> nv[a] == ov[a]);
                assert(nv[pi as int].0 == id@ && nv[pi as int].1 == ov[pi as int].1 + 1);
                assert(keys_distinct(nv));
                lemma_val_at(nv, id@, pi as int);
                assert forall|d: Seq<u8>| d != id@ implies has_key(nv, d) == has_key(ov, d)
                    && val_of(nv, d) == val_of(ov, d) by {
                    if has_key(ov, d) {
                        let j = choose|j: int| 0 <= j < ov.len() && ov[j].0 == d;
                        assert(j != pi);
                        lemma_val_at(ov, d, j);
                        lemma_val_at(nv, d, j);
                    } else {
                        assert(!has_key(nv, d));
                        lemma_val_absent(ov, d);
                        lemma_val_absent(nv, d);
                    }
                }
            }
        },
        None => {
            proof {
                assert(!has_key(ov, id@));
                lemma_val_absent(ov, id@);
            }
            let mut k: usize = 0;
            while k < ps.len()
                invariant
                    out@.len() == k <= ps@.len(),
                    forall|j: int|
                        0 <= j < k ==> (#[trigger] out@[j]).doc@ == ps@[j].doc@ && out@[j].freq
                            == ps@[j].freq,
                decreases ps@.len() - k,
            {
                let f = ps[k].freq;
                out.push(Posting { doc: ps[k].doc.clone(), freq: f });
                k = k + 1;
            }
            let ghost olen = out@.len();
            out.push(Posting { doc: id.clone(), freq: 1 });
            proof {
                let nv = postings_view(out@);
                assert(nv.len() == ov.len() + 1);
                assert(forall|a: int| 0 <= a < ov.len() ==> nv[a] == ov[a]);
                assert(nv[olen as int].0 == id@ && nv[olen as int].1 == 1);
                assert(forall|a: int| 0 <= a < ov.len() ==> ov[a].0 != id@);
                assert(keys_distinct(nv));
                lemma_val_at(nv, id@, olen as int);
                assert forall|d: Seq<u8>| d != id@ implies has_key(nv, d) == has_key(ov, d)
                    && val_of(nv, d) == val_of(ov, d) by {
                    if has_key(ov, d) {
                        let j = choose|j: int| 0 <= j < ov.len() && ov[j].0 == d;
                        lemma_val_at(ov, d, j);
                        lemma_val_at(nv, d, j);
                    } else {
                        assert(!has_key(nv, d));
                        lemma_val_absent(ov, d);
                        lemma_val_absent(nv, d);
                    }
                }
            }
        },
    }
    out
}

/// Raises the frequency of `(t, id)` by one, creating the term row when
/// absent; every other `(term, document)` pair keeps its frequency.
fn bump_token(rs: &mut Vec<TermRow>, t: &Vec<u8>, id: &Vec<u8>, Ghost(lens): Ghost<
    Seq<(Seq<u8>, u64)>,
>)
    requires
        row_keys_distinct(index_view(old(rs)@)),
        forall|i: int|
            0 <= i < old(rs)@.len() ==> prow_ok(#[trigger] index_view(old(rs)@)[i].1, lens),
        has_key(lens, id@),
        tf_of(index_view(old(rs)@), t@, id@) + 1 <= u32::MAX,
    ensures
        row_keys_distinct(index_view(final(rs)@)),
        forall|i: int|
            0 <= i < final(rs)@.len() ==> prow_ok(#[trigger] index_view(final(rs)@)[i].1, lens),
        tf_of(index_view(final(rs)@), t@, id@) == tf_of(index_view(old(rs)@), t@, id@) + 1,
        forall|t2: Seq<u8>|
            t2 != t@ ==> row_of(index_view(final(rs)@), t2) == row_of(index_view(old(rs)@), t2),
        forall|t2: Seq<u8>|
            t2 != t@ ==> has_row(index_view(final(rs)@), t2) == has_row(index_view(old(rs)@), t2),
        has_row(index_view(final(rs)@), t@),
        forall|d: Seq<u8>|
            d != id@ ==> val_of(row_of(index_view(final(rs)@), t@), d) == val_of(
                row_of(index_view(old(rs)@), t@),
                d,
            ),
        forall|d: Seq<u8>|
            d != id@ ==> has_key(row_of(index_view(final(rs)@), t@), d) == has_key(
                row_of(index_view(old(rs)@), t@),
                d,
            ),
{
    let ghost oiv = index_view(old(rs)@);
    match find_term_row(rs, t) {
        Some(ri) => {
            proof {
                lemma_row_at(oiv, t@, ri as int);
            }
            let new_postings = bump_postings(&rs[ri].postings, id);
            let new_term = rs[ri].term.clone();
            rs[ri] = TermRow { term: new_term, postings: new_postings };
            proof {
                let niv = index_view(rs@);
                assert(niv.len() == oiv.len());
                assert(forall|a: int| 0 <= a < niv.len() && a != ri ==> niv[a] == oiv[a]);
                assert(niv[ri as int].0 == t@);
                assert(row_keys_distinct(niv));
                lemma_row_at(niv, t@, ri as int);
                let ghost orow = oiv[ri as int].1;
                let nrow = niv[ri as int].1;
                assert forall|i: int| 0 <= i < rs@.len() implies prow_ok(
                    #[trigger] niv[i].1,
                    lens,
                ) by {
                    if i == ri {
                        assert forall|k: int| 0 <= k < nrow.len() implies 1 <= (
                        #[trigger] nrow[k]).1 <= u32::MAX && has_key(lens, nrow[k].0) by {
                            let d = nrow[k].0;
                            assert(has_key(nrow, d));
                            if d != id@ {
                                assert(has_key(orow, d));
                                let j = choose|j: int| 0 <= j < orow.len() && orow[j].0 == d;
                                assert(prow_ok(oiv[ri as int].1, lens));
                                assert(has_key(lens, orow[j].0));
                            }
                        }
                    } else {
                        assert(niv[i] == oiv[i]);
                        assert(prow_ok(oiv[i].1, lens));
                    }
                }
                assert forall|t2: Seq<u8>| t2 != t@ implies row_of(niv, t2) == row_of(oiv, t2)
                    && has_row(niv, t2) == has_row(oiv, t2) by {
                    assert(forall|a: int| 0 <= a < niv.len() ==> niv[a].0 == oiv[a].0);
                    if has_row(oiv, t2) {
                        let j = choose|j: int| 0 <= j < oiv.len() && oiv[j].0 == t2;
                        assert(j != ri);
                        lemma_row_at(oiv, t2, j);
                        lemma_row_at(niv, t2, j);
                    } else {
                        assert(!has_row(niv, t2));
                        lemma_row_absent(oiv, t2);
                        lemma_row_absent(niv, t2);
                    }
                }
            }
        },
        None => {
            proof {
                assert(!has_row(oiv, t@));
                lemma_row_absent(oiv, t@);
                lemma_val_absent(row_of(oiv, t@), id@);
            }
            let mut single: Vec<Posting> = Vec::new();
            single.push(Posting { doc: id.clone(), freq: 1 });
            let ghost olen = rs@.len();
            rs.push(TermRow { term: t.clone(), postings: single });
            proof {
                let niv = index_view(rs@);
                assert(niv.len() == oiv.len() + 1);
                assert(forall|a: int| 0 <= a < oiv.len() ==> niv[a] == oiv[a]);
                assert(niv[olen as int].0 == t@);
                assert(forall|a: int| 0 <= a < oiv.len() ==> oiv[a].0 != t@);
                assert(row_keys_distinct(niv));
                let nrow = niv[olen as int].1;
                assert(nrow.len() == 1 && nrow[0].0 == id@ && nrow[0].1 == 1);
                assert(keys_distinct(nrow));
                assert(prow_ok(nrow, lens));
                lemma_row_at(niv, t@, olen as int);
                lemma_val_at(nrow, id@, 0);
                assert forall|i: int| 0 <= i < rs@.len() implies prow_ok(
                    #[trigger] niv[i].1,
                    lens,
                ) by {
                    if i < olen {
                        assert(niv[i] == oiv[i]);
                        assert(prow_ok(oiv[i].1, lens));
                    }
                }
                assert forall|d: Seq<u8>| d != id@ implies val_of(row_of(niv, t@), d) == val_of(
                    row_of(oiv, t@),
                    d,
                ) && has_key(row_of(niv, t@), d) == has_key(row_of(oiv, t@), d) by {
                    assert(row_of(niv, t@) == nrow);
                    assert(!has_key(nrow, d));
                    lemma_val_absent(nrow, d);
                    assert(!has_key(row_of(oiv, t@), d));
                    lemma_val_absent(row_of(oiv, t@), d);
                }
                assert forall|t2: Seq<u8>| t2 != t@ implies row_of(niv, t2) == row_of(oiv, t2)
                    && has_row(niv, t2) == has_row(oiv, t2) by {
                    if has_row(oiv, t2) {
                        let j = choose|j: int| 0 <= j < oiv.len() && oiv[j].0 == t2;
                        lemma_row_at(oiv, t2, j);
                        lemma_row_at(niv, t2, j);
                    } else {
                        assert(!has_row(niv, t2));
                        lemma_row_absent(oiv, t2);
                        lemma_row_absent(niv, t2);
                    }
                }
            }
        },
    }
}

// ---------------------------------------------------------------------------
// Deletion: the view-level transformer and its laws.
// ---------------------------------------------------------------------------

/// Removes every pair keyed by `d`.
pub open spec fn prune_pairs(v: Seq<(Seq<u8>, u64)>, d: Seq<u8>) -> Seq<(Seq<u8>, u64)>
    decreases v.len(),
{
    if v.len() == 0 {
        Seq::empty()
    } else {
        let rest = prune_pairs(v.skip(1), d);
        if v[0].0 == d {
            rest
        } else {
            seq![v[0]] + rest
        }
    }
}

/// Removes document `d` from every row and drops rows left empty.
pub open spec fn prune_rows(v: Seq<(Seq<u8>, Seq<(Seq<u8>, u64)>)>, d: Seq<u8>) -> Seq<
    (Seq<u8>, Seq<(Seq<u8>, u64)>),
>
    decreases v.len(),
{
    if v.len() == 0 {
        Seq::empty()
    } else {
        let rest = prune_rows(v.skip(1), d);
        let pr = prune_pairs(v[0].1, d);
        if pr.len() == 0 {
            rest
        } else {
            seq![(v[0].0, pr)] + rest
        }
    }
}

pub proof fn lemma_prune_pairs_push(v: Seq<(Seq<u8>, u64)>, x: (Seq<u8>, u64), d: Seq<u8>)
    ensures
        prune_pairs(v.push(x), d) == prune_pairs(v, d) + (if x.0 == d {
            Seq::<(Seq<u8>, u64)>::empty()
        } else {
            seq![x]
        }),
    decreases v.len(),
{
    let tail = if x.0 == d {
        Seq::<(Seq<u8>, u64)>::empty()
    } else {
        seq![x]
    };
    if v.len() == 0 {
        assert(v.push(x)[0] == x);
        assert(v.push(x).skip(1) =~= Seq::<(Seq<u8>, u64)>::empty());
        assert(prune_pairs(Seq::<(Seq<u8>, u64)>::empty(), d) == Seq::<(Seq<u8>, u64)>::empty());
        assert(prune_pairs(v.push(x), d) =~= prune_pairs(v, d) + tail);
    } else {
        assert(v.push(x)[0] == v[0]);
        assert(v.push(x).skip(1) =~= v.skip(1).push(x));
        lemma_prune_pairs_push(v.skip(1), x, d);
        assert(prune_pairs(v.push(x), d) =~= prune_pairs(v, d) + tail);
    }
}

pub proof fn lemma_prune_rows_push(
    v: Seq<(Seq<u8>, Seq<(Seq<u8>, u64)>)>,
    x: (Seq<u8>, Seq<(Seq<u8>, u64)>),
    d: Seq<u8>,
)
    ensures
        prune_rows(v.push(x), d) == prune_rows(v, d) + (if prune_pairs(x.1, d).len() == 0 {
            Seq::<(Seq<u8>, Seq<(Seq<u8>, u64)>)>::empty()
        } else {
            seq![(x.0, prune_pairs(x.1, d))]
        }),
    decreases v.len(),
{
    let tail = if prune_pairs(x.1, d).len() == 0 {
        Seq::<(Seq<u8>, Seq<(Seq<u8>, u64)>)>::empty()
    } else {
        seq![(x.0, prune_pairs(x.1, d))]
    };
    if v.len() == 0 {
        assert(v.push(x)[0] == x);
        assert(v.push(x).skip(1) =~= Seq::<(Seq<u8>, Seq<(Seq<u8>, u64)>)>::empty());
        assert(prune_rows(Seq::<(Seq<u8>, Seq<(Seq<u8>, u64)>)>::empty(), d) == Seq::<(Seq<u8>, Seq<(Seq<u8>, u64)>)>::empty());
        assert(prune_rows(v.push(x), d) =~= prune_rows(v, d) + tail);
    } else {
        assert(v.push(x)[0] == v[0]);
        assert(v.push(x).skip(1) =~= v.skip(1).push(x));
        lemma_prune_rows_push(v.skip(1), x, d);
        assert(prune_rows(v.push(x), d) =~= prune_rows(v, d) + tail);
    }
}

/// `has_key` splits into the head pair and the tail.
pub proof fn lemma_has_key_unfold(v: Seq<(Seq<u8>, u64)>, k: Seq<u8>)
    requires
        v.len() > 0,
    ensures
        has_key(v, k) == (v[0].0 == k || has_key(v.skip(1), k)),
{
    if has_key(v, k) {
        let i = choose|i: int| 0 <= i < v.len() && v[i].0 == k;
        if i > 0 {
            assert(v.skip(1)[i - 1] == v[i]);
        }
    }
    if has_key(v.skip(1), k) {
        let i = choose|i: int| 0 <= i < v.skip(1).len() && v.skip(1)[i].0 == k;
        assert(v[i + 1] == v.skip(1)[i]);
    }
}

/// A key survives pruning exactly when it was present and is not the pruned one.
pub proof fn lemma_prune_pairs_has(v: Seq<(Seq<u8>, u64)>, d: Seq<u8>, k: Seq<u8>)
    ensures
        has_key(prune_pairs(v, d), k) == (has_key(v, k) && k != d),
    decreases v.len(),
{
    if v.len() == 0 {
        assert(!has_key(v, k));
        assert(!has_key(prune_pairs(v, d), k));
    } else {
        lemma_prune_pairs_has(v.skip(1), d, k);
        lemma_has_key_unfold(v, k);
        let rest = prune_pairs(v.skip(1), d);
        if v[0].0 == d {
        } else {
            let pr = seq![v[0]] + rest;
            assert(pr[0] == v[0]);
            assert(pr.skip(1) =~= rest);
            lemma_has_key_unfold(pr, k);
        }
    }
}

/// Every other key keeps its value across pruning.
pub proof fn lemma_prune_pairs_val(v: Seq<(Seq<u8>, u64)>, d: Seq<u8>, k: Seq<u8>)
    requires
        k != d,
    ensures
        val_of(prune_pairs(v, d), k) == val_of(v, k),
    decreases v.len(),
{
    if v.len() > 0 {
        lemma_prune_pairs_val(v.skip(1), d, k);
        let rest = prune_pairs(v.skip(1), d);
        if v[0].0 == d {
            assert(v[0].0 != k);
        } else {
            let pr = seq![v[0]] + rest;
            assert(pr[0] == v[0]);
            assert(pr.skip(1) =~= rest);
        }
    }
}

/// Pruning keeps keys distinct, and every surviving pair is an original pair
/// whose key is not the pruned document.
pub proof fn lemma_prune_pairs_elems(v: Seq<(Seq<u8>, u64)>, d: Seq<u8>)
    requires
        keys_distinct(v),
    ensures
        keys_distinct(prune_pairs(v, d)),
        forall|j: int|
            0 <= j < prune_pairs(v, d).len() ==> (#[trigger] prune_pairs(v, d)[j]).0 != d
                && exists|a: int| 0 <= a < v.len() && v[a] == prune_pairs(v, d)[j],
    decreases v.len(),
{
    if v.len() > 0 {
        assert(keys_distinct(v.skip(1))) by {
            assert(forall|a: int, b: int|
                0 <= a < b < v.skip(1).len() ==> v.skip(1)[a] == v[a + 1] && v.skip(1)[b] == v[b
                    + 1]);
        }
        lemma_prune_pairs_elems(v.skip(1), d);
        let rest = prune_pairs(v.skip(1), d);
        assert(forall|a: int| 0 <= a < v.skip(1).len() ==> v.skip(1)[a] == v[a + 1]);
        if v[0].0 == d {
            assert forall|j: int| 0 <= j < rest.len() implies (#[trigger] rest[j]).0 != d
                && exists|a: int| 0 <= a < v.len() && v[a] == rest[j] by {
                let a0 = choose|a: int| 0 <= a < v.skip(1).len() && v.skip(1)[a] == rest[j];
                assert(v[a0 + 1] == rest[j]);
            }
        } else {
            let pr = seq![v[0]] + rest;
            assert(pr[0] == v[0]);
            assert(forall|i: int| 0 <= i < rest.len() ==> pr[i + 1] == rest[i]);
            assert forall|j: int| 0 <= j < pr.len() implies (#[trigger] pr[j]).0 != d && exists|
                a: int,
            | 0 <= a < v.len() && v[a] == pr[j] by {
                if j == 0 {
                    assert(v[0] == pr[0]);
                } else {
                    let a0 = choose|a: int|
                        0 <= a < v.skip(1).len() && v.skip(1)[a] == rest[j - 1];
                    assert(v[a0 + 1] == pr[j]);
                }
            }
            assert(keys_distinct(pr)) by {
                lemma_prune_pairs_has(v.skip(1), d, v[0].0);
                assert(!has_key(v.skip(1), v[0].0)) by {
                    assert(forall|a: int| 0 <= a < v.skip(1).len() ==> v.skip(1)[a] == v[a + 1]);
                }
                assert(!has_key(rest, v[0].0));
                assert forall|a: int, b: int| 0 <= a < b < pr.len() implies pr[a].0 != pr[b].0 by {
                    if a == 0 {
                        assert(pr[b] == rest[b - 1]);
                        if pr[0].0 == pr[b].0 {
                            assert(has_key(rest, v[0].0));
                        }
                    } else {
                        assert(pr[a] == rest[a - 1] && pr[b] == rest[b - 1]);
                    }
                }
            }
        }
    }
}

/// `has_row` splits into the head row and the tail.
pub proof fn lemma_has_row_unfold(v: Seq<(Seq<u8>, Seq<(Seq<u8>, u64)>)>, t: Seq<u8>)
    requires
        v.len() > 0,
    ensures
        has_row(v, t) == (v[0].0 == t || has_row(v.skip(1), t)),
{
    if has_row(v, t) {
        let i = choose|i: int| 0 <= i < v.len() && v[i].0 == t;
        if i > 0 {
            assert(v.skip(1)[i - 1] == v[i]);
        }
    }
    if has_row(v.skip(1), t) {
        let i = choose|i: int| 0 <= i < v.skip(1).len() && v.skip(1)[i].0 == t;
        assert(v[i + 1] == v.skip(1)[i]);
    }
}

/// A term that survives row pruning was a term before.
pub proof fn lemma_prune_rows_has(v: Seq<(Seq<u8>, Seq<(Seq<u8>, u64)>)>, d: Seq<u8>, t: Seq<u8>)
    ensures
        has_row(prune_rows(v, d), t) ==> has_row(v, t),
    decreases v.len(),
{
    if v.len() > 0 {
        lemma_prune_rows_has(v.skip(1), d, t);
        lemma_has_row_unfold(v, t);
        let rest = prune_rows(v.skip(1), d);
        let pr = prune_pairs(v[0].1, d);
        if pr.len() == 0 {
        } else {
            let whole = seq![(v[0].0, pr)] + rest;
            assert(whole[0].0 == v[0].0);
            assert(whole.skip(1) =~= rest);
            if has_row(whole, t) {
                lemma_has_row_unfold(whole, t);
            }
        }
    }
}

/// Row pruning keeps terms distinct, and every surviving row is the pruned
/// form of the row that carried the same term.
pub proof fn lemma_prune_rows_elems(v: Seq<(Seq<u8>, Seq<(Seq<u8>, u64)>)>, d: Seq<u8>)
    requires
        row_keys_distinct(v),
    ensures
        row_keys_distinct(prune_rows(v, d)),
        forall|j: int|
            0 <= j < prune_rows(v, d).len() ==> exists|a: int|
                0 <= a < v.len() && (#[trigger] prune_rows(v, d)[j]).0 == v[a].0 && prune_rows(
                    v,
                    d,
                )[j].1 == prune_pairs(v[a].1, d) && prune_pairs(v[a].1, d).len() >= 1,
    decreases v.len(),
{
    if v.len() > 0 {
        assert(row_keys_distinct(v.skip(1))) by {
            assert(forall|a: int, b: int|
                0 <= a < b < v.skip(1).len() ==> v.skip(1)[a] == v[a + 1] && v.skip(1)[b] == v[b
                    + 1]);
        }
        lemma_prune_rows_elems(v.skip(1), d);
        let rest = prune_rows(v.skip(1), d);
        let pr = prune_pairs(v[0].1, d);
        assert(forall|a: int| 0 <= a < v.skip(1).len() ==> v.skip(1)[a] == v[a + 1]);
        if pr.len() == 0 {
            assert forall|j: int| 0 <= j < rest.len() implies exists|a: int|
                0 <= a < v.len() && (#[trigger] rest[j]).0 == v[a].0 && rest[j].1 == prune_pairs(
                    v[a].1,
                    d,
                ) && prune_pairs(v[a].1, d).len() >= 1 by {
                let a0 = choose|a: int|
                    0 <= a < v.skip(1).len() && rest[j].0 == v.skip(1)[a].0 && rest[j].1
                        == prune_pairs(v.skip(1)[a].1, d) && prune_pairs(v.skip(1)[a].1, d).len()
                        >= 1;
                assert(v[a0 + 1] == v.skip(1)[a0]);
            }
        } else {
            let whole = seq![(v[0].0, pr)] + rest;
            assert(whole[0] == (v[0].0, pr));
            assert(forall|i: int| 0 <= i < rest.len() ==> whole[i + 1] == rest[i]);
            assert forall|j: int| 0 <= j < whole.len() implies exists|a: int|
                0 <= a < v.len() && (#[trigger] whole[j]).0 == v[a].0 && whole[j].1 == prune_pairs(
                    v[a].1,
                    d,
                ) && prune_pairs(v[a].1, d).len() >= 1 by {
                if j == 0 {
                    assert(whole[0].0 == v[0].0 && whole[0].1 == prune_pairs(v[0].1, d));
                } else {
                    let a0 = choose|a: int|
                        0 <= a < v.skip(1).len() && rest[j - 1].0 == v.skip(1)[a].0 && rest[j
                            - 1].1 == prune_pairs(v.skip(1)[a].1, d) && prune_pairs(
                            v.skip(1)[a].1,
                            d,
                        ).len() >= 1;
                    assert(v[a0 + 1] == v.skip(1)[a0]);
                }
            }
            assert(row_keys_distinct(whole)) by {
                assert forall|a: int, b: int| 0 <= a < b < whole.len() implies whole[a].0
                    != whole[b].0 by {
                    if a == 0 {
                        let e = choose|c: int|
                            0 <= c < v.skip(1).len() && rest[b - 1].0 == v.skip(1)[c].0 && rest[b
                                - 1].1 == prune_pairs(v.skip(1)[c].1, d) && prune_pairs(
                                v.skip(1)[c].1,
                                d,
                            ).len() >= 1;
                        assert(rest[b - 1].0 == v[e + 1].0);
                        assert(v[0].0 != v[e + 1].0);
                    } else {
                        assert(whole[a] == rest[a - 1] && whole[b] == rest[b - 1]);
                    }
                }
            }
        }
    }
}

/// After pruning, no surviving row mentions the pruned document, and every
/// other document keeps its value in every row.
pub proof fn lemma_prune_rows_val(
    v: Seq<(Seq<u8>, Seq<(Seq<u8>, u64)>)>,
    d: Seq<u8>,
    t: Seq<u8>,
    d2: Seq<u8>,
)
    requires
        row_keys_distinct(v),
        forall|j: int| 0 <= j < v.len() ==> keys_distinct((#[trigger] v[j]).1),
        d2 != d,
    ensures
        val_of(row_of(prune_rows(v, d), t), d2) == val_of(row_of(v, t), d2),
    decreases v.len(),
{
    if v.len() == 0 {
        assert(prune_rows(v, d) =~= v);
    } else {
        assert(row_keys_distinct(v.skip(1))) by {
            assert(forall|a: int, b: int|
                0 <= a < b < v.skip(1).len() ==> v.skip(1)[a] == v[a + 1] && v.skip(1)[b] == v[b
                    + 1]);
        }
        assert(forall|a: int| 0 <= a < v.skip(1).len() ==> v.skip(1)[a] == v[a + 1]);
        lemma_prune_rows_val(v.skip(1), d, t, d2);
        let rest = prune_rows(v.skip(1), d);
        let pr = prune_pairs(v[0].1, d);
        if t == v[0].0 {
            assert(row_of(v, t) == v[0].1);
            if pr.len() == 0 {
                lemma_prune_pairs_has(v[0].1, d, d2);
                assert(!has_key(pr, d2));
                assert(!has_key(v[0].1, d2));
                lemma_val_absent(v[0].1, d2);
                if has_row(prune_rows(v, d), t) {
                    lemma_prune_rows_has(v.skip(1), d, t);
                    assert(has_row(v.skip(1), t));
                    let i = choose|i: int| 0 <= i < v.skip(1).len() && v.skip(1)[i].0 == t;
                    assert(v[i + 1].0 == t && v[0].0 == t);
                    assert(false);
                }
                lemma_row_absent(prune_rows(v, d), t);
                lemma_val_absent(Seq::<(Seq<u8>, u64)>::empty(), d2);
            } else {
                let whole = seq![(v[0].0, pr)] + rest;
                assert(whole[0] == (v[0].0, pr));
                assert(row_of(whole, t) == pr);
                lemma_prune_pairs_val(v[0].1, d, d2);
            }
        } else {
            assert(row_of(v, t) == row_of(v.skip(1), t));
            if pr.len() == 0 {
            } else {
                let whole = seq![(v[0].0, pr)] + rest;
                assert(whole[0] == (v[0].0, pr));
                assert(whole[0].0 != t);
                assert(whole.skip(1) =~= rest);
                assert(row_of(whole, t) == row_of(rest, t));
            }
        }
    }
}

/// Pruning a document that appears in no row leaves the rows unchanged.
pub proof fn lemma_prune_rows_identity(v: Seq<(Seq<u8>, Seq<(Seq<u8>, u64)>)>, d: Seq<u8>)
    requires
        forall|j: int| 0 <= j < v.len() ==> !has_key((#[trigger] v[j]).1, d),
        forall|j: int| 0 <= j < v.len() ==> (#[trigger] v[j]).1.len() >= 1,
    ensures
        prune_rows(v, d) == v,
    decreases v.len(),
{
    if v.len() > 0 {
        assert(forall|a: int| 0 <= a < v.skip(1).len() ==> v.skip(1)[a] == v[a + 1]);
        lemma_prune_rows_identity(v.skip(1), d);
        lemma_prune_pairs_identity(v[0].1, d);
        assert(prune_pairs(v[0].1, d).len() >= 1);
        assert((v[0].0, prune_pairs(v[0].1, d)) == v[0]);
        assert(seq![v[0]] + v.skip(1) =~= v);
    }
}

/// Pruning an absent key changes nothing.
pub proof fn lemma_prune_pairs_identity(v: Seq<(Seq<u8>, u64)>, d: Seq<u8>)
    requires
        !has_key(v, d),
    ensures
        prune_pairs(v, d) == v,
    decreases v.len(),
{
    if v.len() > 0 {
        assert(!has_key(v.skip(1), d)) by {
            assert(forall|a: int| 0 <= a < v.skip(1).len() ==> v.skip(1)[a] == v[a + 1]);
        }
        lemma_prune_pairs_identity(v.skip(1), d);
        assert(v[0].0 != d);
        assert(seq![v[0]] + v.skip(1) =~= v);
    }
}

// ---------------------------------------------------------------------------
// Freezing: the view-level score table and its construction.
// ---------------------------------------------------------------------------

/// The total of all values in a pair sequence (the corpus token total when
/// applied to the length table).
pub open spec fn sum_vals(v: Seq<(Seq<u8>, u64)>) -> int
    decreases v.len(),
{
    if v.len() == 0 {
        0
    } else {
        v[0].1 + sum_vals(v.skip(1))
    }
}

pub proof fn lemma_sum_vals_push(v: Seq<(Seq<u8>, u64)>, x: (Seq<u8>, u64))
    ensures
        sum_vals(v.push(x)) == sum_vals(v) + x.1,
    decreases v.len(),
{
    if v.len() == 0 {
        assert(v.push(x)[0] == x);
        assert(v.push(x).skip(1) =~= Seq::<(Seq<u8>, u64)>::empty());
        assert(sum_vals(Seq::<(Seq<u8>, u64)>::empty()) == 0);
    } else {
        assert(v.push(x)[0] == v[0]);
        assert(v.push(x).skip(1) =~= v.skip(1).push(x));
        lemma_sum_vals_push(v.skip(1), x);
    }
}

/// Distinct keys that all occur in a distinct-keyed table are no more
/// numerous than the table's entries.
pub proof fn lemma_keys_card(row: Seq<(Seq<u8>, u64)>, lens: Seq<(Seq<u8>, u64)>)
    requires
        keys_distinct(row),
        keys_distinct(lens),
        forall|k: int| 0 <= k < row.len() ==> has_key(lens, (#[trigger] row[k]).0),
    ensures
        row.len() <= lens.len(),
{
    broadcast use vstd::seq_lib::seq_to_set_is_finite;

    let rk = row.map(|i: int, p: (Seq<u8>, u64)| p.0);
    let lk = lens.map(|i: int, p: (Seq<u8>, u64)| p.0);
    assert(rk.no_duplicates());
    assert(lk.no_duplicates());
    rk.unique_seq_to_set();
    lk.unique_seq_to_set();
    assert(rk.to_set().subset_of(lk.to_set())) by {
        assert forall|x: Seq<u8>| rk.to_set().contains(x) implies lk.to_set().contains(x) by {
            let i = choose|i: int| 0 <= i < rk.len() && rk[i] == x;
            assert(row[i].0 == x);
            assert(has_key(lens, x));
            let j = choose|j: int| 0 <= j < lens.len() && lens[j].0 == x;
            assert(lk[j] == x);
        }
    }
    vstd::set_lib::lemma_len_subset(rk.to_set(), lk.to_set());
}

/// One frozen row: each document's raw frequency becomes its precomputed
/// score, with the row's size as the document frequency.
pub open spec fn freeze_row_view(
    row: Seq<(Seq<u8>, u64)>,
    lens: Seq<(Seq<u8>, u64)>,
    n_docs: int,
    len_sum: int,
    k1m: int,
    bm: int,
) -> Seq<(Seq<u8>, u64)> {
    row.map(
        |m: int, p: (Seq<u8>, u64)|
            (
                p.0,
                spec_score(
                    p.1 as int,
                    n_docs,
                    val_of(lens, p.0),
                    len_sum,
                    k1m,
                    bm,
                    row.len() as int,
                ) as u64,
            ),
    )
}

/// The whole frozen table: one score row per term row, computed against the
/// current document count and token total.
pub open spec fn spec_freeze(
    iv: Seq<(Seq<u8>, Seq<(Seq<u8>, u64)>)>,
    lens: Seq<(Seq<u8>, u64)>,
    k1m: int,
    bm: int,
) -> Seq<(Seq<u8>, Seq<(Seq<u8>, u64)>)> {
    iv.map(
        |i: int, r: (Seq<u8>, Seq<(Seq<u8>, u64)>)|
            (r.0, freeze_row_view(r.1, lens, lens.len() as int, sum_vals(lens), k1m, bm)),
    )
}

/// Reads one document's length; the document must be known.
fn len_of(ls: &Vec<DocLen>, d: &Vec<u8>) -> (r: u32)
    requires
        keys_distinct(lens_view(ls@)),
        has_key(lens_view(ls@), d@),
    ensures
        r as int == val_of(lens_view(ls@), d@),
{
    match find_doc_len(ls, d) {
        Some(i) => {
            proof {
                lemma_val_at(lens_view(ls@), d@, i as int);
            }
            ls[i].len
        },
        None => {
            proof {
                let j = choose|j: int|
                    0 <= j < lens_view(ls@).len() && lens_view(ls@)[j].0 == d@;
                assert(ls@[j].doc@ == d@);
                assert(false);
            }
            0
        },
    }
}

// ---------------------------------------------------------------------------
// Retrieval: query collapsing, score accumulation, ranking.
// ---------------------------------------------------------------------------

/// Searching an index whose score table was never frozen (or froze to
/// nothing) is a usage error, distinct from an empty result.
#[derive(Debug, PartialEq, Eq, Structural)]
pub enum SearchError {
    NotFrozen,
}

pub open spec fn tok_views(s: Seq<Vec<u8>>) -> Seq<Seq<u8>> {
    s.map(|i: int, v: Vec<u8>| v@)
}

pub open spec fn seq_has(s: Seq<Seq<u8>>, x: Seq<u8>) -> bool {
    exists|i: int| 0 <= i < s.len() && s[i] == x
}

/// The query's distinct terms, in first-occurrence order.
pub open spec fn dedup_acc(q: Seq<Vec<u8>>, acc: Seq<Seq<u8>>) -> Seq<Seq<u8>>
    decreases q.len(),
{
    if q.len() == 0 {
        acc
    } else {
        dedup_acc(
            q.skip(1),
            if seq_has(acc, q[0]@) {
                acc
            } else {
                acc.push(q[0]@)
            },
        )
    }
}

pub open spec fn dedup_toks(q: Seq<Vec<u8>>) -> Seq<Seq<u8>> {
    dedup_acc(q, Seq::empty())
}

/// A document's accumulated relevance over the query's distinct terms:
/// the clamped sum of its precomputed scores under each term, zero for
/// terms it does not appear under.
pub open spec fn total_score(
    fv: Seq<(Seq<u8>, Seq<(Seq<u8>, u64)>)>,
    terms: Seq<Seq<u8>>,
    d: Seq<u8>,
) -> int
    decreases terms.len(),
{
    if terms.len() == 0 {
        0
    } else {
        spec_add_clamp(
            total_score(fv, terms.drop_last(), d),
            val_of(row_of(fv, terms.last()), d),
        )
    }
}

/// A document is a candidate when some distinct query term's frozen row
/// mentions it.
pub open spec fn is_candidate(
    fv: Seq<(Seq<u8>, Seq<(Seq<u8>, u64)>)>,
    terms: Seq<Seq<u8>>,
    d: Seq<u8>,
) -> bool {
    exists|j: int| 0 <= j < terms.len() && has_key(row_of(fv, terms[j]), d)
}

pub proof fn lemma_total_score_bounds(
    fv: Seq<(Seq<u8>, Seq<(Seq<u8>, u64)>)>,
    terms: Seq<Seq<u8>>,
    d: Seq<u8>,
)
    ensures
        0 <= total_score(fv, terms, d) <= u64::MAX,
    decreases terms.len(),
{
    if terms.len() > 0 {
        lemma_total_score_bounds(fv, terms.drop_last(), d);
        lemma_val_nonneg(row_of(fv, terms.last()), d);
    }
}

pub proof fn lemma_val_nonneg(v: Seq<(Seq<u8>, u64)>, k: Seq<u8>)
    ensures
        0 <= val_of(v, k) <= u64::MAX,
    decreases v.len(),
{
    if v.len() > 0 {
        lemma_val_nonneg(v.skip(1), k);
    }
}

fn find_tok(ts: &Vec<Vec<u8>>, t: &Vec<u8>) -> (r: bool)
    ensures
        r == seq_has(tok_views(ts@), t@),
{
    let mut i: usize = 0;
    while i < ts.len()
        invariant
            i <= ts@.len(),
            forall|j: int| 0 <= j < i ==> tok_views(ts@)[j] != t@,
        decreases ts@.len() - i,
    {
        if bytes_eq(&ts[i], t) {
            proof {
                assert(tok_views(ts@)[i as int] == t@);
            }
            return true;
        }
        i = i + 1;
    }
    proof {
        if seq_has(tok_views(ts@), t@) {
            let j = choose|j: int| 0 <= j < tok_views(ts@).len() && tok_views(ts@)[j] == t@;
            assert(false);
        }
    }
    false
}

/// Collapses a token sequence to its distinct tokens, keeping first
/// occurrences in order.
fn dedup_exec(q: &Vec<Vec<u8>>) -> (r: Vec<Vec<u8>>)
    ensures
        tok_views(r@) == dedup_toks(q@),
{
    let mut out: Vec<Vec<u8>> = Vec::new();
    let mut i: usize = 0;
    proof {
        assert(q@.skip(0) =~= q@);
        assert(tok_views(out@) =~= Seq::<Seq<u8>>::empty());
    }
    while i < q.len()
        invariant
            i <= q@.len(),
            dedup_toks(q@) == dedup_acc(q@.skip(i as int), tok_views(out@)),
        decreases q@.len() - i,
    {
        let ghost pre = tok_views(out@);
        let present = find_tok(&out, &q[i]);
        if !present {
            out.push(q[i].clone());
        }
        proof {
            assert(q@.skip(i as int).len() > 0);
            assert(q@.skip(i as int)[0] == q@[i as int]);
            assert(q@.skip(i as int).skip(1) =~= q@.skip(i + 1));
            if present {
                assert(tok_views(out@) == pre);
            } else {
                assert(tok_views(out@) =~= pre.push(q@[i as int]@));
            }
        }
        i = i + 1;
    }
    proof {
        assert(q@.skip(q@.len() as int) =~= Seq::<Vec<u8>>::empty());
    }
    out
}

fn find_entry(es: &Vec<ScoreEntry>, d: &Vec<u8>) -> (r: Option<usize>)
    ensures
        match r {
            Some(i) => i < es@.len() && es@[i as int].doc@ == d@,
            None => forall|j: int| 0 <= j < es@.len() ==> (#[trigger] es@[j]).doc@ != d@,
        },
{
    let mut i: usize = 0;
    while i < es.len()
        invariant
            i <= es@.len(),
            forall|j: int| 0 <= j < i ==> (#[trigger] es@[j]).doc@ != d@,
        decreases es@.len() - i,
    {
        if bytes_eq(&es[i].doc, d) {
            return Some(i);
        }
        i = i + 1;
    }
    None
}

/// Byte-string order: position by position, with a proper prefix coming
/// first. A strict total order on distinct strings, used to pin tie order.
pub open spec fn bytes_lt(a: Seq<u8>, b: Seq<u8>) -> bool
    decreases a.len(),
{
    if b.len() == 0 {
        false
    } else if a.len() == 0 {
        true
    } else if a[0] < b[0] {
        true
    } else if a[0] > b[0] {
        false
    } else {
        bytes_lt(a.skip(1), b.skip(1))
    }
}

/// Of two distinct byte strings, exactly one comes first.
pub proof fn lemma_bytes_lt_trichotomy(a: Seq<u8>, b: Seq<u8>)
    ensures
        a == b || (bytes_lt(a, b) <==> !bytes_lt(b, a)),
    decreases a.len(),
{
    if a.len() == 0 || b.len() == 0 {
        if a.len() == b.len() {
            assert(a =~= b);
        }
    } else if a[0] == b[0] {
        lemma_bytes_lt_trichotomy(a.skip(1), b.skip(1));
        if a.skip(1) == b.skip(1) {
            assert(a.skip(1).len() == a.len() - 1);
            assert(b.skip(1).len() == b.len() - 1);
            assert(a.len() == b.len());
            assert forall|i: int| 0 <= i < a.len() implies a[i] == b[i] by {
                if i > 0 {
                    assert(a.skip(1)[i - 1] == a[i]);
                    assert(b.skip(1)[i - 1] == b[i]);
                }
            }
            assert(a =~= b);
        }
    }
}

/// The byte-string order is transitive.
pub proof fn lemma_bytes_lt_trans(a: Seq<u8>, b: Seq<u8>, c: Seq<u8>)
    requires
        bytes_lt(a, b),
        bytes_lt(b, c),
    ensures
        bytes_lt(a, c),
    decreases a.len(),
{
    if a.len() > 0 && b.len() > 0 && c.len() > 0 {
        if a[0] == b[0] && b[0] == c[0] {
            lemma_bytes_lt_trans(a.skip(1), b.skip(1), c.skip(1));
        }
    }
}

/// Decides `bytes_lt` on byte vectors.
pub fn bytes_lt_exec(a: &Vec<u8>, b: &Vec<u8>) -> (r: bool)
    ensures
        r == bytes_lt(a@, b@),
{
    let mut i: usize = 0;
    proof {
        assert(a@.skip(0) =~= a@);
        assert(b@.skip(0) =~= b@);
    }
    while i < a.len() && i < b.len()
        invariant
            i <= a@.len(),
            i <= b@.len(),
            bytes_lt(a@, b@) == bytes_lt(a@.skip(i as int), b@.skip(i as int)),
        decreases a@.len() - i,
    {
        proof {
            let sa = a@.skip(i as int);
            let sb = b@.skip(i as int);
            assert(sa[0] == a@[i as int]);
            assert(sb[0] == b@[i as int]);
            assert(sa.skip(1) =~= a@.skip(i + 1));
            assert(sb.skip(1) =~= b@.skip(i + 1));
        }
        if a[i] < b[i] {
            return true;
        }
        if a[i] > b[i] {
            return false;
        }
        i = i + 1;
    }
    proof {
        assert(a@.skip(i as int).len() == a@.len() - i);
        assert(b@.skip(i as int).len() == b@.len() - i);
    }
    i < b.len()
}

pub proof fn lemma_val_push(v: Seq<(Seq<u8>, u64)>, x: (Seq<u8>, u64), k: Seq<u8>)
    ensures
        val_of(v.push(x), k) == (if has_key(v, k) {
            val_of(v, k)
        } else if x.0 == k {
            x.1 as int
        } else {
            0
        }),
    decreases v.len(),
{
    if v.len() == 0 {
        assert(v.push(x)[0] == x);
        assert(v.push(x).skip(1) =~= Seq::<(Seq<u8>, u64)>::empty());
        assert(val_of(Seq::<(Seq<u8>, u64)>::empty(), k) == 0);
        assert(!has_key(v, k));
    } else {
        assert(v.push(x)[0] == v[0]);
        assert(v.push(x).skip(1) =~= v.skip(1).push(x));
        lemma_val_push(v.skip(1), x, k);
        lemma_has_key_unfold(v, k);
    }
}

/// Sums each term row's contributions into a per-document accumulator.
fn accumulate_scores(fs: &Vec<ScoreRow>, terms: &Vec<Vec<u8>>) -> (r: Vec<ScoreEntry>)
    requires
        row_keys_distinct(frozen_view(fs@)),
        forall|i: int| 0 <= i < fs@.len() ==> srow_ok((#[trigger] frozen_view(fs@)[i]).1),
    ensures
        keys_distinct(entries_view(r@)),
        forall|d: Seq<u8>|
            val_of(entries_view(r@), d) == total_score(frozen_view(fs@), tok_views(terms@), d),
        forall|d: Seq<u8>|
            has_key(entries_view(r@), d) == is_candidate(frozen_view(fs@), tok_views(terms@), d),
{
    let ghost fv = frozen_view(fs@);
    let ghost tv = tok_views(terms@);
    let mut acc: Vec<ScoreEntry> = Vec::new();
    let mut j: usize = 0;
    proof {
        assert(tv.take(0) =~= Seq::<Seq<u8>>::empty());
        assert(entries_view(acc@) =~= Seq::<(Seq<u8>, u64)>::empty());
        assert forall|d: Seq<u8>| val_of(entries_view(acc@), d) == total_score(
            fv,
            tv.take(0),
            d,
        ) && has_key(entries_view(acc@), d) == is_candidate(fv, tv.take(0), d) by {
            assert(val_of(Seq::<(Seq<u8>, u64)>::empty(), d) == 0);
        }
    }
    while j < terms.len()
        invariant
            j <= terms@.len(),
            tv == tok_views(terms@),
            fv == frozen_view(fs@),
            row_keys_distinct(fv),
            forall|i: int| 0 <= i < fs@.len() ==> srow_ok((#[trigger] frozen_view(fs@)[i]).1),
            keys_distinct(entries_view(acc@)),
            forall|d: Seq<u8>|
                val_of(entries_view(acc@), d) == total_score(fv, tv.take(j as int), d),
            forall|d: Seq<u8>|
                has_key(entries_view(acc@), d) == is_candidate(fv, tv.take(j as int), d),
        decreases terms@.len() - j,
    {
        let ghost base = tv.take(j as int);
        proof {
            assert(tv.take(j + 1).drop_last() =~= base);
            assert(tv.take(j + 1).last() == tv[j as int]);
        }
        match find_score_row(fs, &terms[j]) {
            Some(ri) => {
                proof {
                    assert(fv[ri as int].0 == tv[j as int]);
                    lemma_row_at(fv, tv[j as int], ri as int);
                    assert(srow_ok(fv[ri as int].1));
                }
                let ghost rv = fv[ri as int].1;
                let mut k: usize = 0;
                while k < fs[ri].entries.len()
                    invariant
                        ri < fs@.len(),
                        k <= rv.len(),
                        tv == tok_views(terms@),
                        fv == frozen_view(fs@),
                        j < terms@.len(),
                        base == tv.take(j as int),
                        rv == fv[ri as int].1,
                        fv[ri as int].0 == tv[j as int],
                        keys_distinct(rv),
                        keys_distinct(entries_view(acc@)),
                        forall|d: Seq<u8>| #![trigger val_of(entries_view(acc@), d)]
                            val_of(entries_view(acc@), d) == (if has_key(rv.take(k as int), d) {
                                spec_add_clamp(total_score(fv, base, d), val_of(rv, d))
                            } else {
                                total_score(fv, base, d)
                            }),
                        forall|d: Seq<u8>| #![trigger has_key(entries_view(acc@), d)]
                            has_key(entries_view(acc@), d) == (is_candidate(fv, base, d)
                                || has_key(rv.take(k as int), d)),
                    decreases rv.len() - k,
                {
                    let ghost tk0 = rv.take(k as int);
                    let ghost tk1 = rv.take(k + 1);
                    let ghost d0 = rv[k as int].0;
                    proof {
                        assert(rv[k as int] == (
                            fs@[ri as int].entries@[k as int].doc@,
                            fs@[ri as int].entries@[k as int].score,
                        ));
                        lemma_val_at(rv, d0, k as int);
                        lemma_total_score_bounds(fv, base, d0);
                        assert(!has_key(tk0, d0)) by {
                            if has_key(tk0, d0) {
                                let a = choose|a: int| 0 <= a < tk0.len() && tk0[a].0 == d0;
                                assert(rv[a].0 == rv[k as int].0);
                            }
                        }
                        assert(tk1 =~= tk0.push(rv[k as int]));
                        assert forall|d: Seq<u8>| has_key(tk1, d) == (has_key(tk0, d) || d
                            == d0) by {
                            if has_key(tk1, d) {
                                let a = choose|a: int| 0 <= a < tk1.len() && tk1[a].0 == d;
                                if a < k {
                                    assert(tk0[a].0 == d);
                                }
                            }
                            if has_key(tk0, d) {
                                let a = choose|a: int| 0 <= a < tk0.len() && tk0[a].0 == d;
                                assert(tk1[a].0 == d);
                            }
                            if d == d0 {
                                assert(tk1[k as int].0 == d);
                            }
                        }
                    }
                    let ghost pre = entries_view(acc@);
                    let found: Option<usize> = find_entry(&acc, &fs[ri].entries[k].doc);
                    match found {
                        Some(pi) => {
                            proof {
                                lemma_val_at(pre, d0, pi as int);
                            }
                            let dcl = acc[pi].doc.clone();
                            let ns = add_clamp(acc[pi].score, fs[ri].entries[k].score);
                            acc[pi] = ScoreEntry { doc: dcl, score: ns };
                            proof {
                                let nv = entries_view(acc@);
                                assert(nv.len() == pre.len());
                                assert(forall|a: int|
                                    0 <= a < nv.len() && a != pi ==> nv[a] == pre[a]);
                                assert(nv[pi as int].0 == d0);
                                assert(keys_distinct(nv));
                                lemma_val_at(nv, d0, pi as int);
                                assert(val_of(nv, d0) == spec_add_clamp(
                                    total_score(fv, base, d0),
                                    val_of(rv, d0),
                                ));
                                assert forall|d: Seq<u8>| d != d0 implies val_of(nv, d) == val_of(
                                    pre,
                                    d,
                                ) && has_key(nv, d) == has_key(pre, d) by {
                                    assert(forall|a: int| 0 <= a < nv.len() ==> nv[a].0 == pre[a].0);
                                    if has_key(pre, d) {
                                        let a = choose|a: int| 0 <= a < pre.len() && pre[a].0 == d;
                                        assert(a != pi);
                                        lemma_val_at(pre, d, a);
                                        lemma_val_at(nv, d, a);
                                    } else {
                                        assert(!has_key(nv, d));
                                        lemma_val_absent(pre, d);
                                        lemma_val_absent(nv, d);
                                    }
                                }
                                assert forall|d: Seq<u8>| val_of(nv, d) == (if has_key(tk1, d) {
                                    spec_add_clamp(total_score(fv, base, d), val_of(rv, d))
                                } else {
                                    total_score(fv, base, d)
                                }) && has_key(nv, d) == (is_candidate(fv, base, d) || has_key(
                                    tk1,
                                    d,
                                )) by {
                                    if d == d0 {
                                        assert(nv[pi as int].0 == d);
                                        assert(has_key(nv, d));
                                        assert(has_key(tk1, d));
                                    } else {
                                        assert(val_of(nv, d) == val_of(pre, d));
                                        assert(has_key(nv, d) == has_key(pre, d));
                                        assert(has_key(tk1, d) == has_key(tk0, d));
                                        assert(val_of(pre, d) == (if has_key(tk0, d) {
                                            spec_add_clamp(
                                                total_score(fv, base, d),
                                                val_of(rv, d),
                                            )
                                        } else {
                                            total_score(fv, base, d)
                                        }));
                                        assert(has_key(pre, d) == (is_candidate(fv, base, d)
                                            || has_key(tk0, d)));
                                    }
                                }
                            }
                        },
                        None => {
                            acc.push(
                                ScoreEntry {
                                    doc: fs[ri].entries[k].doc.clone(),
                                    score: fs[ri].entries[k].score,
                                },
                            );
                            proof {
                                let nv = entries_view(acc@);
                                assert(nv.len() == pre.len() + 1);
                                assert(forall|a: int| 0 <= a < pre.len() ==> nv[a] == pre[a]);
                                assert(nv[pre.len() as int] == (d0, rv[k as int].1));
                                assert(forall|a: int| 0 <= a < pre.len() ==> pre[a].0 != d0);
                                assert(!has_key(pre, d0));
                                lemma_val_absent(pre, d0);
                                assert(keys_distinct(nv));
                                lemma_val_at(nv, d0, pre.len() as int);
                                assert(total_score(fv, base, d0) == 0);
                                assert(val_of(nv, d0) == spec_add_clamp(
                                    total_score(fv, base, d0),
                                    val_of(rv, d0),
                                ));
                                assert forall|d: Seq<u8>| d != d0 implies val_of(nv, d) == val_of(
                                    pre,
                                    d,
                                ) && has_key(nv, d) == has_key(pre, d) by {
                                    if has_key(pre, d) {
                                        let a = choose|a: int| 0 <= a < pre.len() && pre[a].0 == d;
                                        lemma_val_at(pre, d, a);
                                        lemma_val_at(nv, d, a);
                                    } else {
                                        assert(!has_key(nv, d)) by {
                                            if has_key(nv, d) {
                                                let a = choose|a: int|
                                                    0 <= a < nv.len() && nv[a].0 == d;
                                                assert(a < pre.len());
                                            }
                                        }
                                        lemma_val_absent(pre, d);
                                        lemma_val_absent(nv, d);
                                    }
                                }
                                assert forall|d: Seq<u8>| val_of(nv, d) == (if has_key(tk1, d) {
                                    spec_add_clamp(total_score(fv, base, d), val_of(rv, d))
                                } else {
                                    total_score(fv, base, d)
                                }) && has_key(nv, d) == (is_candidate(fv, base, d) || has_key(
                                    tk1,
                                    d,
                                )) by {
                                    if d == d0 {
                                        assert(nv[pre.len() as int].0 == d);
                                        assert(has_key(nv, d));
                                        assert(has_key(tk1, d));
                                    } else {
                                        assert(val_of(nv, d) == val_of(pre, d));
                                        assert(has_key(nv, d) == has_key(pre, d));
                                        assert(has_key(tk1, d) == has_key(tk0, d));
                                        assert(val_of(pre, d) == (if has_key(tk0, d) {
                                            spec_add_clamp(
                                                total_score(fv, base, d),
                                                val_of(rv, d),
                                            )
                                        } else {
                                            total_score(fv, base, d)
                                        }));
                                        assert(has_key(pre, d) == (is_candidate(fv, base, d)
                                            || has_key(tk0, d)));
                                    }
                                }
                            }
                        },
                    }
                    k = k + 1;
                }
                proof {
                    assert(rv.take(rv.len() as int) =~= rv);
                    lemma_row_at(fv, tv[j as int], ri as int);
                    assert(row_of(fv, tv[j as int]) == rv);
                    assert forall|d: Seq<u8>| val_of(entries_view(acc@), d) == total_score(
                        fv,
                        tv.take(j + 1),
                        d,
                    ) && has_key(entries_view(acc@), d) == is_candidate(fv, tv.take(j + 1), d) by {
                        lemma_total_score_bounds(fv, base, d);
                        if !has_key(rv, d) {
                            lemma_val_absent(rv, d);
                        }
                        let tj1 = tv.take(j + 1);
                        assert(is_candidate(fv, tj1, d) == (is_candidate(fv, base, d)
                            || has_key(rv, d))) by {
                            if is_candidate(fv, tj1, d) {
                                let a = choose|a: int|
                                    0 <= a < tj1.len() && has_key(row_of(fv, tj1[a]), d);
                                if a < j {
                                    assert(tj1[a] == base[a]);
                                    assert(has_key(row_of(fv, base[a]), d));
                                }
                            }
                            if is_candidate(fv, base, d) {
                                let a = choose|a: int|
                                    0 <= a < base.len() && has_key(row_of(fv, base[a]), d);
                                assert(tj1[a] == base[a]);
                                assert(has_key(row_of(fv, tj1[a]), d));
                            }
                            if has_key(rv, d) {
                                assert(tj1[j as int] == tv[j as int]);
                                assert(has_key(row_of(fv, tj1[j as int]), d));
                            }
                        }
                    }
                }
            },
            None => {
                proof {
                    assert(!has_row(fv, tv[j as int])) by {
                        if has_row(fv, tv[j as int]) {
                            let a = choose|a: int|
                                0 <= a < fv.len() && fv[a].0 == tv[j as int];
                            assert(fs@[a].term@ == tv[j as int]);
                        }
                    }
                    lemma_row_absent(fv, tv[j as int]);
                    assert forall|d: Seq<u8>| val_of(entries_view(acc@), d) == total_score(
                        fv,
                        tv.take(j + 1),
                        d,
                    ) && has_key(entries_view(acc@), d) == is_candidate(fv, tv.take(j + 1), d) by {
                        lemma_total_score_bounds(fv, base, d);
                        assert(val_of(Seq::<(Seq<u8>, u64)>::empty(), d) == 0);
                        let tj1 = tv.take(j + 1);
                        assert(is_candidate(fv, tj1, d) == is_candidate(fv, base, d)) by {
                            if is_candidate(fv, tj1, d) {
                                let a = choose|a: int|
                                    0 <= a < tj1.len() && has_key(row_of(fv, tj1[a]), d);
                                if a < j {
                                    assert(tj1[a] == base[a]);
                                    assert(has_key(row_of(fv, base[a]), d));
                                }
                            }
                            if is_candidate(fv, base, d) {
                                let a = choose|a: int|
                                    0 <= a < base.len() && has_key(row_of(fv, base[a]), d);
                                assert(tj1[a] == base[a]);
                                assert(has_key(row_of(fv, tj1[a]), d));
                            }
                        }
                    }
                }
            },
        }
        j = j + 1;
    }
    proof {
        assert(tv.take(terms@.len() as int) =~= tv);
    }
    acc
}

/// Orders entries by score, largest first; equal scores are ordered by
/// document bytes, so the ranking is a function of the entries alone.
fn sort_entries_desc(list: &Vec<ScoreEntry>) -> (r: Vec<ScoreEntry>)
    requires
        keys_distinct(entries_view(list@)),
    ensures
        r@.len() == list@.len(),
        keys_distinct(entries_view(r@)),
        forall|a: int, b: int|
            0 <= a < b < r@.len() ==> (#[trigger] r@[a]).score > (#[trigger] r@[b]).score || (
            r@[a].score == r@[b].score && bytes_lt(r@[a].doc@, r@[b].doc@)),
        forall|d: Seq<u8>| has_key(entries_view(r@), d) == has_key(entries_view(list@), d),
        forall|d: Seq<u8>| val_of(entries_view(r@), d) == val_of(entries_view(list@), d),
{
    let ghost lv = entries_view(list@);
    let mut out: Vec<ScoreEntry> = Vec::new();
    let mut i: usize = 0;
    proof {
        assert(lv.take(0) =~= Seq::<(Seq<u8>, u64)>::empty());
        assert(entries_view(out@) =~= Seq::<(Seq<u8>, u64)>::empty());
    }
    while i < list.len()
        invariant
            i <= list@.len(),
            out@.len() == i,
            lv == entries_view(list@),
            keys_distinct(lv),
            keys_distinct(entries_view(out@)),
            forall|a: int, b: int|
                0 <= a < b < out@.len() ==> (#[trigger] out@[a]).score > (
                #[trigger] out@[b]).score || (out@[a].score == out@[b].score && bytes_lt(
                    out@[a].doc@,
                    out@[b].doc@,
                )),
            forall|d: Seq<u8>|
                has_key(entries_view(out@), d) == has_key(lv.take(i as int), d),
            forall|d: Seq<u8>|
                val_of(entries_view(out@), d) == val_of(lv.take(i as int), d),
        decreases list@.len() - i,
    {
        let x_score = list[i].score;
        let mut p: usize = 0;
        while p < out.len() && (out[p].score > x_score || (out[p].score == x_score
            && bytes_lt_exec(&out[p].doc, &list[i].doc)))
            invariant
                p <= out@.len(),
                i < list@.len(),
                x_score == list@[i as int].score,
                forall|a: int|
                    0 <= a < p ==> (#[trigger] out@[a]).score > x_score || (out@[a].score
                        == x_score && bytes_lt(out@[a].doc@, list@[i as int].doc@)),
            decreases out@.len() - p,
        {
            p = p + 1;
        }
        let ghost pre = entries_view(out@);
        let ghost old_out = out@;
        let ghost pn = p as int;
        out.insert(p, ScoreEntry { doc: list[i].doc.clone(), score: x_score });
        proof {
            let nv = entries_view(out@);
            let d0 = lv[i as int].0;
            assert(nv.len() == pre.len() + 1);
            assert(forall|a: int| 0 <= a < pn ==> nv[a] == pre[a]);
            assert(nv[pn] == (d0, lv[i as int].1));
            assert(forall|a: int| pn < a < nv.len() ==> nv[a] == pre[a - 1]);
            assert(!has_key(pre, d0)) by {
                assert(!has_key(lv.take(i as int), d0)) by {
                    if has_key(lv.take(i as int), d0) {
                        let a = choose|a: int|
                            0 <= a < i && lv.take(i as int)[a].0 == d0;
                        assert(lv[a].0 == lv[i as int].0);
                    }
                }
            }
            assert(keys_distinct(nv)) by {
                assert forall|a: int, b: int| 0 <= a < b < nv.len() implies nv[a].0 != nv[b].0 by {
                    if a == pn || b == pn {
                        if a == pn {
                            assert(nv[b] == pre[b - 1]);
                            if nv[a].0 == nv[b].0 {
                                assert(has_key(pre, d0));
                            }
                        } else {
                            if a < pn {
                                if nv[a].0 == nv[b].0 {
                                    assert(has_key(pre, d0));
                                }
                            }
                        }
                    }
                }
            }
            assert forall|a: int, b: int| 0 <= a < b < out@.len() implies (
            #[trigger] out@[a]).score > (#[trigger] out@[b]).score || (out@[a].score
                == out@[b].score && bytes_lt(out@[a].doc@, out@[b].doc@)) by {
                if b < pn {
                } else if a < pn && b == pn {
                    assert(out@[a] == old_out[a]);
                } else if a == pn {
                    assert(out@[b] == old_out[b - 1]);
                    let od = old_out[pn].doc@;
                    assert(pre[pn].0 == od);
                    assert(od != d0);
                    lemma_bytes_lt_trichotomy(od, d0);
                    if old_out[pn].score == x_score {
                        assert(bytes_lt(d0, od));
                    }
                    if b - 1 > pn {
                        if x_score == old_out[b - 1].score {
                            assert(old_out[pn].score == x_score);
                            assert(bytes_lt(od, old_out[b - 1].doc@));
                            lemma_bytes_lt_trans(d0, od, old_out[b - 1].doc@);
                        }
                    }
                } else if a < pn && b > pn {
                    assert(out@[a] == old_out[a]);
                    assert(out@[b] == old_out[b - 1]);
                } else {
                    assert(out@[a] == old_out[a - 1]);
                    assert(out@[b] == old_out[b - 1]);
                }
            }
            lemma_val_at(nv, d0, pn);
            assert(lv.take(i + 1) =~= lv.take(i as int).push(lv[i as int]));
            lemma_val_push(lv.take(i as int), lv[i as int], d0);
            assert forall|d: Seq<u8>| has_key(nv, d) == has_key(lv.take(i + 1), d) && val_of(
                nv,
                d,
            ) == val_of(lv.take(i + 1), d) by {
                lemma_val_push(lv.take(i as int), lv[i as int], d);
                let ti1 = lv.take(i + 1);
                let ti0 = lv.take(i as int);
                assert(has_key(ti1, d) == (has_key(ti0, d) || d == d0)) by {
                    if has_key(ti1, d) {
                        let a = choose|a: int| 0 <= a < ti1.len() && ti1[a].0 == d;
                        if a < i {
                            assert(ti0[a].0 == d);
                        }
                    }
                    if has_key(ti0, d) {
                        let a = choose|a: int| 0 <= a < ti0.len() && ti0[a].0 == d;
                        assert(ti1[a].0 == d);
                    }
                    if d == d0 {
                        assert(ti1[i as int].0 == d);
                    }
                }
                if d != d0 {
                    if has_key(pre, d) {
                        let a = choose|a: int| 0 <= a < pre.len() && pre[a].0 == d;
                        lemma_val_at(pre, d, a);
                        if a < pn {
                            lemma_val_at(nv, d, a);
                        } else {
                            lemma_val_at(nv, d, a + 1);
                        }
                        assert(has_key(nv, d));
                    } else {
                        assert(!has_key(nv, d)) by {
                            if has_key(nv, d) {
                                let a = choose|a: int| 0 <= a < nv.len() && nv[a].0 == d;
                                if a < pn {
                                    assert(pre[a].0 == d);
                                } else if a > pn {
                                    assert(pre[a - 1].0 == d);
                                }
                            }
                        }
                        lemma_val_absent(nv, d);
                        lemma_val_absent(pre, d);
                    }
                }
            }
        }
        i = i + 1;
    }
    proof {
        assert(lv.take(list@.len() as int) =~= lv);
    }
    out
}

pub open spec fn res_mentions(res: Seq<(Vec<u8>, u64)>, d: Seq<u8>) -> bool {
    exists|i: int| 0 <= i < res.len() && res[i].0@ == d
}

/// What a successful search returns: at most `n` pairs, scores non-increasing
/// with equal scores ordered by document bytes (so the whole sequence is a
/// function of the candidates and their scores), documents distinct, each
/// pair a candidate with its exact accumulated score, and no candidate left
/// out unless the result is full of pairs that score at least as high.
pub open spec fn search_ok(
    fv: Seq<(Seq<u8>, Seq<(Seq<u8>, u64)>)>,
    terms: Seq<Seq<u8>>,
    n: int,
    res: Seq<(Vec<u8>, u64)>,
) -> bool {
    &&& res.len() <= n
    &&& forall|a: int, b: int| 0 <= a < b < res.len() ==> res[a].1 >= res[b].1
    &&& forall|a: int, b: int|
        0 <= a < b < res.len() ==> (#[trigger] res[a]).1 > (#[trigger] res[b]).1 || (res[a].1
            == res[b].1 && bytes_lt(res[a].0@, res[b].0@))
    &&& forall|a: int, b: int| 0 <= a < b < res.len() ==> res[a].0@ != res[b].0@
    &&& forall|i: int|
        0 <= i < res.len() ==> is_candidate(fv, terms, (#[trigger] res[i]).0@) && res[i].1 as int
            == total_score(fv, terms, res[i].0@)
    &&& forall|d: Seq<u8>|
        is_candidate(fv, terms, d) && !res_mentions(res, d) ==> res.len() == n && (forall|i: int|
            0 <= i < res.len() ==> (#[trigger] res[i]).1 as int >= total_score(fv, terms, d))
}

impl BM25 {
    /// The full contract of `search` on a given query, result limit and
    /// outcome.
    pub open spec fn search_post(
        self,
        q: Seq<Vec<u8>>,
        n: int,
        r: Result<Vec<(Vec<u8>, u64)>, SearchError>,
    ) -> bool {
        match r {
            Ok(res) => self.searchable() && search_ok(
                frozen_view(self.freeze_map@),
                dedup_toks(q),
                n,
                res@,
            ),
            Err(e) => !self.searchable() && e == SearchError::NotFrozen,
        }
    }

    /// Ranked retrieval: collapses the query to its distinct terms, sums each
    /// candidate document's precomputed contributions, orders candidates by
    /// score (largest first) and returns at most `n` of them. An index whose
    /// frozen table is empty refuses to search.
    pub fn search(&self, query_tokens: Vec<Vec<u8>>, n: usize) -> (r: Result<
        Vec<(Vec<u8>, u64)>,
        SearchError,
    >)
        requires
            self.wf(),
        ensures
            self.search_post(query_tokens@, n as int, r),
    {
        if self.freeze_map.len() == 0 {
            return Err(SearchError::NotFrozen);
        }
        let ghost fv = frozen_view(self.freeze_map@);
        let ghost tv = dedup_toks(query_tokens@);
        let terms = dedup_exec(&query_tokens);
        let acc = accumulate_scores(&self.freeze_map, &terms);
        let sorted = sort_entries_desc(&acc);
        let ghost sv = entries_view(sorted@);
        let mut res: Vec<(Vec<u8>, u64)> = Vec::new();
        let mut i: usize = 0;
        while i < sorted.len() && i < n
            invariant
                i <= sorted@.len(),
                i <= n,
                res@.len() == i,
                sv == entries_view(sorted@),
                forall|a: int| 0 <= a < i ==> (#[trigger] res@[a]).0@ == sorted@[a].doc@,
                forall|a: int| 0 <= a < i ==> (#[trigger] res@[a]).1 == sorted@[a].score,
            decreases sorted@.len() - i,
        {
            res.push((sorted[i].doc.clone(), sorted[i].score));
            i = i + 1;
        }
        proof {
            let rv = res@;
            assert(rv.len() == (if sorted@.len() < n {
                sorted@.len() as int
            } else {
                n as int
            }));
            assert forall|a: int| 0 <= a < rv.len() implies is_candidate(
                fv,
                tv,
                (#[trigger] rv[a]).0@,
            ) && rv[a].1 as int == total_score(fv, tv, rv[a].0@) by {
                assert(sv[a] == (sorted@[a].doc@, sorted@[a].score));
                lemma_val_at(sv, sv[a].0, a);
                assert(has_key(sv, rv[a].0@));
            }
            assert forall|d: Seq<u8>|
                is_candidate(fv, tv, d) && !res_mentions(rv, d) implies rv.len() == n && (forall|
                i: int,
            | 0 <= i < rv.len() ==> (#[trigger] rv[i]).1 as int >= total_score(fv, tv, d)) by {
                assert(has_key(sv, d));
                let q = choose|q: int| 0 <= q < sv.len() && sv[q].0 == d;
                assert(sorted@[q].doc@ == d);
                assert(q >= rv.len()) by {
                    if q < rv.len() {
                        assert(rv[q].0@ == d);
                        assert(res_mentions(rv, d));
                    }
                }
                assert(rv.len() == n);
                lemma_val_at(sv, d, q);
                assert(sorted@[q].score as int == total_score(fv, tv, d));
                assert forall|i: int| 0 <= i < rv.len() implies (#[trigger] rv[i]).1 as int
                    >= total_score(fv, tv, d) by {
                    assert(sorted@[i].score >= sorted@[q].score);
                }
            }
            assert forall|a: int, b: int| 0 <= a < b < rv.len() implies rv[a].0@ != rv[b].0@ by {
                assert(sv[a].0 == rv[a].0@ && sv[b].0 == rv[b].0@);
            }
            assert forall|a: int, b: int| 0 <= a < b < rv.len() implies (#[trigger] rv[a]).1 > (
            #[trigger] rv[b]).1 || (rv[a].1 == rv[b].1 && bytes_lt(rv[a].0@, rv[b].0@)) by {
                assert(rv[a].1 == sorted@[a].score && rv[a].0@ == sorted@[a].doc@);
                assert(rv[b].1 == sorted@[b].score && rv[b].0@ == sorted@[b].doc@);
            }
        }
        Ok(res)
    }

    /// Applies `search` to each query independently, preserving input order
    /// positionally; the queries share the frozen table read-only, so they
    /// are fanned out across threads.
    ///
    /// Relies on rayon's parallel iterator: `par_iter().map(f).collect()`
    /// returns one `f(q)` per input `q`, in input order; the closure only
    /// calls this library's `search`.
    #[verifier::external_body]
    pub fn batch_search(&self, tokenized_queries: Vec<Vec<Vec<u8>>>, n: usize) -> (r: Vec<
        Result<Vec<(Vec<u8>, u64)>, SearchError>,
    >)
        requires
            self.wf(),
        ensures
            r@.len() == tokenized_queries@.len(),
            forall|i: int|
                0 <= i < r@.len() ==> self.search_post(tokenized_queries@[i]@, n as int, #[trigger] r@[i]),
    {
        tokenized_queries.par_iter().map(|q: &Vec<Vec<u8>>| self.search(q.clone(), n)).collect()
    }

}

fn prune_postings_exec(ps: &Vec<Posting>, id: &Vec<u8>) -> (r: Vec<Posting>)
    ensures
        postings_view(r@) == prune_pairs(postings_view(ps@), id@),
        r@.len() <= ps@.len(),
{
    let ghost pv = postings_view(ps@);
    let mut out: Vec<Posting> = Vec::new();
    let mut k: usize = 0;
    proof {
        assert(pv.take(0) =~= Seq::<(Seq<u8>, u64)>::empty());
        assert(postings_view(out@) =~= prune_pairs(pv.take(0), id@));
    }
    while k < ps.len()
        invariant
            k <= ps@.len(),
            out@.len() <= k,
            postings_view(out@) == prune_pairs(pv.take(k as int), id@),
            pv == postings_view(ps@),
        decreases ps@.len() - k,
    {
        let keep = !bytes_eq(&ps[k].doc, id);
        if keep {
            out.push(Posting { doc: ps[k].doc.clone(), freq: ps[k].freq });
        }
        proof {
            assert(pv.take(k + 1) =~= pv.take(k as int).push(pv[k as int]));
            lemma_prune_pairs_push(pv.take(k as int), pv[k as int], id@);
            if keep {
                assert(postings_view(out@) =~= prune_pairs(pv.take(k as int), id@) + seq![
                    pv[k as int],
                ]);
            } else {
                assert(postings_view(out@) =~= prune_pairs(pv.take(k as int), id@)
                    + Seq::<(Seq<u8>, u64)>::empty());
            }
        }
        k = k + 1;
    }
    proof {
        assert(pv.take(ps@.len() as int) =~= pv);
    }
    out
}

fn prune_entries_exec(es: &Vec<ScoreEntry>, id: &Vec<u8>) -> (r: Vec<ScoreEntry>)
    ensures
        entries_view(r@) == prune_pairs(entries_view(es@), id@),
        r@.len() <= es@.len(),
{
    let ghost pv = entries_view(es@);
    let mut out: Vec<ScoreEntry> = Vec::new();
    let mut k: usize = 0;
    proof {
        assert(pv.take(0) =~= Seq::<(Seq<u8>, u64)>::empty());
        assert(entries_view(out@) =~= prune_pairs(pv.take(0), id@));
    }
    while k < es.len()
        invariant
            k <= es@.len(),
            out@.len() <= k,
            entries_view(out@) == prune_pairs(pv.take(k as int), id@),
            pv == entries_view(es@),
        decreases es@.len() - k,
    {
        let keep = !bytes_eq(&es[k].doc, id);
        if keep {
            out.push(ScoreEntry { doc: es[k].doc.clone(), score: es[k].score });
        }
        proof {
            assert(pv.take(k + 1) =~= pv.take(k as int).push(pv[k as int]));
            lemma_prune_pairs_push(pv.take(k as int), pv[k as int], id@);
            if keep {
                assert(entries_view(out@) =~= prune_pairs(pv.take(k as int), id@) + seq![
                    pv[k as int],
                ]);
            } else {
                assert(entries_view(out@) =~= prune_pairs(pv.take(k as int), id@)
                    + Seq::<(Seq<u8>, u64)>::empty());
            }
        }
        k = k + 1;
    }
    proof {
        assert(pv.take(es@.len() as int) =~= pv);
    }
    out
}

fn prune_lens_exec(ls: &Vec<DocLen>, id: &Vec<u8>) -> (r: Vec<DocLen>)
    ensures
        lens_view(r@) == prune_pairs(lens_view(ls@), id@),
        r@.len() <= ls@.len(),
{
    let ghost pv = lens_view(ls@);
    let mut out: Vec<DocLen> = Vec::new();
    let mut k: usize = 0;
    proof {
        assert(pv.take(0) =~= Seq::<(Seq<u8>, u64)>::empty());
        assert(lens_view(out@) =~= prune_pairs(pv.take(0), id@));
    }
    while k < ls.len()
        invariant
            k <= ls@.len(),
            out@.len() <= k,
            lens_view(out@) == prune_pairs(pv.take(k as int), id@),
            pv == lens_view(ls@),
        decreases ls@.len() - k,
    {
        let keep = !bytes_eq(&ls[k].doc, id);
        if keep {
            out.push(DocLen { doc: ls[k].doc.clone(), len: ls[k].len });
        }
        proof {
            assert(pv.take(k + 1) =~= pv.take(k as int).push(pv[k as int]));
            lemma_prune_pairs_push(pv.take(k as int), pv[k as int], id@);
            if keep {
                assert(lens_view(out@) =~= prune_pairs(pv.take(k as int), id@) + seq![
                    pv[k as int],
                ]);
            } else {
                assert(lens_view(out@) =~= prune_pairs(pv.take(k as int), id@)
                    + Seq::<(Seq<u8>, u64)>::empty());
            }
        }
        k = k + 1;
    }
    proof {
        assert(pv.take(ls@.len() as int) =~= pv);
    }
    out
}

impl BM25 {
    /// The index's invariant.
    pub open spec fn wf(self) -> bool {
        &&& row_keys_distinct(index_view(self.index_map@))
        &&& forall|i: int|
            0 <= i < self.index_map@.len() ==> prow_ok(
                #[trigger] index_view(self.index_map@)[i].1,
                lens_view(self.doc_len_map@),
            )
        &&& keys_distinct(lens_view(self.doc_len_map@))
        &&& self.doc_len_map@.len() < 0xFFFF_FFFF
        &&& row_keys_distinct(frozen_view(self.freeze_map@))
        &&& forall|i: int|
            0 <= i < self.freeze_map@.len() ==> srow_ok(#[trigger] frozen_view(self.freeze_map@)[i].1)
        &&& self.k1_milli <= 1000000
        &&& self.b_milli <= 1000
    }

    /// Whether a freeze has produced a non-empty score table; searching
    /// demands this.
    pub open spec fn searchable(self) -> bool {
        self.freeze_map@.len() > 0
    }

    /// A fresh, empty index with the default smoothing constants
    /// `k1 = 1.5`, `b = 0.75`.
    pub fn new() -> (r: BM25)
        ensures
            r.wf(),
            r.index_map@.len() == 0,
            r.doc_len_map@.len() == 0,
            r.freeze_map@.len() == 0,
            r.k1_milli == 1500,
            r.b_milli == 750,
            r.avg_len_num == 0,
            r.avg_len_den == 0,
    {
        BM25 {
            index_map: Vec::new(),
            doc_len_map: Vec::new(),
            freeze_map: Vec::new(),
            k1_milli: 1500,
            b_milli: 750,
            avg_len_num: 0,
            avg_len_den: 0,
        }
    }

    /// Indexes one document: every occurrence of a token in `document` raises
    /// the `(token, id)` frequency by one, and the document's length entry is
    /// overwritten with `document.len()`. Re-adding an id without deleting it
    /// first therefore accumulates frequencies; that is the caller's
    /// responsibility. The frozen table is not touched and goes stale.
    pub fn add_document(&mut self, id: Vec<u8>, document: Vec<Vec<u8>>)
        requires
            old(self).wf(),
            old(self).doc_len_map@.len() + 1 < 0xFFFF_FFFF,
            document@.len() <= u32::MAX,
            forall|t: Seq<u8>|
                tf_of(index_view(old(self).index_map@), t, id@) + document@.len() <= u32::MAX,
        ensures
            final(self).wf(),
            has_key(lens_view(final(self).doc_len_map@), id@),
            val_of(lens_view(final(self).doc_len_map@), id@) == document@.len(),
            forall|d: Seq<u8>|
                d != id@ ==> has_key(lens_view(final(self).doc_len_map@), d) == has_key(
                    lens_view(old(self).doc_len_map@),
                    d,
                ),
            forall|d: Seq<u8>|
                d != id@ ==> val_of(lens_view(final(self).doc_len_map@), d) == val_of(
                    lens_view(old(self).doc_len_map@),
                    d,
                ),
            forall|t: Seq<u8>|
                tf_of(index_view(final(self).index_map@), t, id@) == tf_of(
                    index_view(old(self).index_map@),
                    t,
                    id@,
                ) + count_tok(document@, t),
            forall|t: Seq<u8>, d: Seq<u8>|
                d != id@ ==> val_of(row_of(index_view(final(self).index_map@), t), d) == val_of(
                    row_of(index_view(old(self).index_map@), t),
                    d,
                ),
            final(self).freeze_map == old(self).freeze_map,
            final(self).k1_milli == old(self).k1_milli,
            final(self).b_milli == old(self).b_milli,
            final(self).avg_len_num == old(self).avg_len_num,
            final(self).avg_len_den == old(self).avg_len_den,
    {
        let ghost oiv = index_view(old(self).index_map@);
        let n: u32 = document.len() as u32;
        upsert_len(&mut self.doc_len_map, &id, n);
        let ghost lens = lens_view(self.doc_len_map@);
        proof {
            assert forall|i: int| 0 <= i < self.index_map@.len() implies prow_ok(
                #[trigger] index_view(self.index_map@)[i].1,
                lens,
            ) by {
                assert(prow_ok(index_view(self.index_map@)[i].1, lens_view(old(self).doc_len_map@)));
                let row = index_view(self.index_map@)[i].1;
                assert forall|k: int| 0 <= k < row.len() implies 1 <= (#[trigger] row[k]).1
                    <= u32::MAX && has_key(lens, row[k].0) by {
                    assert(has_key(lens_view(old(self).doc_len_map@), row[k].0));
                }
            }
        }
        let mut i: usize = 0;
        while i < document.len()
            invariant
                i <= document@.len(),
                document@.len() <= u32::MAX,
                row_keys_distinct(index_view(self.index_map@)),
                forall|k: int|
                    0 <= k < self.index_map@.len() ==> prow_ok(
                        #[trigger] index_view(self.index_map@)[k].1,
                        lens,
                    ),
                lens == lens_view(self.doc_len_map@),
                has_key(lens, id@),
                forall|t: Seq<u8>|
                    tf_of(index_view(self.index_map@), t, id@) == tf_of(oiv, t, id@) + count_tok(
                        document@.take(i as int),
                        t,
                    ),
                forall|t: Seq<u8>|
                    tf_of(oiv, t, id@) + document@.len() <= u32::MAX,
                forall|t: Seq<u8>, d: Seq<u8>|
                    d != id@ ==> val_of(row_of(index_view(self.index_map@), t), d) == val_of(
                        row_of(oiv, t),
                        d,
                    ),
                self.freeze_map == old(self).freeze_map,
                self.k1_milli == old(self).k1_milli,
                self.b_milli == old(self).b_milli,
                self.avg_len_num == old(self).avg_len_num,
                self.avg_len_den == old(self).avg_len_den,
                self.doc_len_map@.len() < 0xFFFF_FFFF,
                keys_distinct(lens),
            decreases document@.len() - i,
        {
            let ghost civ = index_view(self.index_map@);
            let ghost tok = document@[i as int]@;
            proof {
                lemma_count_tok_bounds(document@.take(i as int), tok);
                assert(document@.take(i as int).len() == i);
                assert(tf_of(civ, tok, id@) + 1 <= u32::MAX);
            }
            bump_token(&mut self.index_map, &document[i], &id, Ghost(lens));
            proof {
                let niv = index_view(self.index_map@);
                assert(document@.take(i + 1) =~= document@.take(i as int).push(
                    document@[i as int],
                ));
                assert forall|t: Seq<u8>| tf_of(niv, t, id@) == tf_of(oiv, t, id@) + count_tok(
                    document@.take(i + 1),
                    t,
                ) by {
                    lemma_count_tok_push(document@.take(i as int), document@[i as int], t);
                    assert(count_tok(document@.take(i + 1), t) == count_tok(
                        document@.take(i as int),
                        t,
                    ) + (if tok == t {
                        1int
                    } else {
                        0int
                    }));
                    assert(tf_of(civ, t, id@) == tf_of(oiv, t, id@) + count_tok(
                        document@.take(i as int),
                        t,
                    ));
                    if t == tok {
                        assert(tf_of(niv, t, id@) == tf_of(civ, t, id@) + 1);
                    } else {
                        assert(row_of(niv, t) == row_of(civ, t));
                        assert(tf_of(niv, t, id@) == tf_of(civ, t, id@));
                    }
                }
                assert forall|t: Seq<u8>, d: Seq<u8>| d != id@ implies val_of(
                    row_of(niv, t),
                    d,
                ) == val_of(row_of(oiv, t), d) by {
                    if t == tok {
                        assert(val_of(row_of(niv, t), d) == val_of(row_of(civ, t), d));
                    } else {
                        assert(row_of(niv, t) == row_of(civ, t));
                    }
                }
            }
            i = i + 1;
        }
        proof {
            assert(document@.take(document@.len() as int) =~= document@);
        }
    }

    /// Recomputes the average document length from the length table and
    /// replaces the whole frozen score table: one score row per term row,
    /// each document's raw frequency turned into its precomputed relevance
    /// contribution against the current corpus statistics.
    pub fn freeze(&mut self)
        requires
            old(self).wf(),
        ensures
            final(self).wf(),
            final(self).index_map == old(self).index_map,
            final(self).doc_len_map == old(self).doc_len_map,
            final(self).k1_milli == old(self).k1_milli,
            final(self).b_milli == old(self).b_milli,
            final(self).avg_len_num == sum_vals(lens_view(old(self).doc_len_map@)),
            final(self).avg_len_den == old(self).doc_len_map@.len(),
            frozen_view(final(self).freeze_map@) == spec_freeze(
                index_view(old(self).index_map@),
                lens_view(old(self).doc_len_map@),
                old(self).k1_milli as int,
                old(self).b_milli as int,
            ),
            final(self).freeze_map@.len() == old(self).index_map@.len(),
    {
        let ghost iv = index_view(self.index_map@);
        let ghost lv = lens_view(self.doc_len_map@);
        let ghost k1g = self.k1_milli as int;
        let ghost bg = self.b_milli as int;

        let n_docs: u64 = self.doc_len_map.len() as u64;
        let mut len_sum: u64 = 0;
        let mut i: usize = 0;
        proof {
            assert(lv.take(0) =~= Seq::<(Seq<u8>, u64)>::empty());
        }
        while i < self.doc_len_map.len()
            invariant
                i <= self.doc_len_map@.len(),
                lv == lens_view(self.doc_len_map@),
                self.doc_len_map@.len() < 0xFFFF_FFFF,
                len_sum as int == sum_vals(lv.take(i as int)),
                len_sum <= (i as int) * (u32::MAX as int),
            decreases self.doc_len_map@.len() - i,
        {
            proof {
                assert(lv.take(i + 1) =~= lv.take(i as int).push(lv[i as int]));
                lemma_sum_vals_push(lv.take(i as int), lv[i as int]);
                assert(lv[i as int].1 <= u32::MAX);
                assert((i as int) * (u32::MAX as int) + (u32::MAX as int) == (i + 1) * (
                u32::MAX as int)) by (nonlinear_arith);
                assert((i + 1) * (u32::MAX as int) <= 0xFFFF_FFFFi64 * (u32::MAX as int))
                    by (nonlinear_arith)
                    requires
                        i + 1 <= 0xFFFF_FFFFi64,
                ;
            }
            len_sum = len_sum + self.doc_len_map[i].len as u64;
            i = i + 1;
        }
        proof {
            assert(lv.take(self.doc_len_map@.len() as int) =~= lv);
        }
        self.avg_len_num = len_sum;
        self.avg_len_den = n_docs;

        let mut out: Vec<ScoreRow> = Vec::new();
        let mut r: usize = 0;
        while r < self.index_map.len()
            invariant
                r <= self.index_map@.len(),
                iv == index_view(self.index_map@),
                lv == lens_view(self.doc_len_map@),
                n_docs as int == lv.len(),
                n_docs < 0xFFFF_FFFF,
                len_sum as int == sum_vals(lv),
                self.k1_milli as int == k1g,
                self.b_milli as int == bg,
                k1g <= 1000000,
                bg <= 1000,
                keys_distinct(lv),
                forall|j: int| 0 <= j < iv.len() ==> prow_ok((#[trigger] iv[j]).1, lv),
                out@.len() == r,
                forall|j: int|
                    0 <= j < r ==> frozen_view(out@)[j] == spec_freeze(iv, lv, k1g, bg)[j],
            decreases self.index_map@.len() - r,
        {
            let df: u64 = self.index_map[r].postings.len() as u64;
            proof {
                assert(prow_ok(iv[r as int].1, lv));
                lemma_keys_card(iv[r as int].1, lv);
                assert(iv[r as int].1.len() >= 1);
                assert(has_key(lv, iv[r as int].1[0].0));
                let j0 = choose|j: int| 0 <= j < lv.len() && lv[j].0 == iv[r as int].1[0].0;
                assert(lv.len() >= 1);
            }
            let mut entries: Vec<ScoreEntry> = Vec::new();
            let mut k: usize = 0;
            while k < self.index_map[r].postings.len()
                invariant
                    r < self.index_map@.len(),
                    k <= iv[r as int].1.len(),
                    iv == index_view(self.index_map@),
                    lv == lens_view(self.doc_len_map@),
                    n_docs as int == lv.len(),
                    1 <= n_docs < 0xFFFF_FFFF,
                    len_sum as int == sum_vals(lv),
                    self.k1_milli as int == k1g,
                    self.b_milli as int == bg,
                    k1g <= 1000000,
                    bg <= 1000,
                    keys_distinct(lv),
                    prow_ok(iv[r as int].1, lv),
                    df as int == iv[r as int].1.len(),
                    1 <= df < 0xFFFF_FFFF,
                    entries@.len() == k,
                    forall|m: int|
                        0 <= m < k ==> entries_view(entries@)[m] == freeze_row_view(
                            iv[r as int].1,
                            lv,
                            lv.len() as int,
                            sum_vals(lv),
                            k1g,
                            bg,
                        )[m],
                decreases iv[r as int].1.len() - k,
            {
                proof {
                    assert(iv[r as int].1[k as int] == (
                        self.index_map@[r as int].postings@[k as int].doc@,
                        self.index_map@[r as int].postings@[k as int].freq as u64,
                    ));
                    assert(1 <= iv[r as int].1[k as int].1 <= u32::MAX);
                    assert(has_key(lv, iv[r as int].1[k as int].0));
                }
                let dl = len_of(&self.doc_len_map, &self.index_map[r].postings[k].doc);
                let freq = self.index_map[r].postings[k].freq;
                let ghost pre_entries = entries@;
                let s = score_of(freq, n_docs, dl, len_sum, self.k1_milli, self.b_milli, df);
                proof {
                    assert(s as int == spec_score(
                        iv[r as int].1[k as int].1 as int,
                        lv.len() as int,
                        val_of(lv, iv[r as int].1[k as int].0),
                        sum_vals(lv),
                        k1g,
                        bg,
                        iv[r as int].1.len() as int,
                    ));
                }
                entries.push(
                    ScoreEntry { doc: self.index_map[r].postings[k].doc.clone(), score: s },
                );
                proof {
                    let frv = freeze_row_view(
                        iv[r as int].1,
                        lv,
                        lv.len() as int,
                        sum_vals(lv),
                        k1g,
                        bg,
                    );
                    assert(frv[k as int] == (
                        iv[r as int].1[k as int].0,
                        spec_score(
                            iv[r as int].1[k as int].1 as int,
                            lv.len() as int,
                            val_of(lv, iv[r as int].1[k as int].0),
                            sum_vals(lv),
                            k1g,
                            bg,
                            iv[r as int].1.len() as int,
                        ) as u64,
                    ));
                    assert(frv[k as int].1 == s);
                    assert(entries_view(entries@)[k as int] == frv[k as int]);
                    assert forall|m: int| 0 <= m < k implies entries_view(entries@)[m] == frv[m] by {
                        assert(entries_view(pre_entries)[m] == frv[m]);
                        assert(entries@[m] == pre_entries[m]);
                    }
                }
                k = k + 1;
            }
            let term = self.index_map[r].term.clone();
            let ghost pre_out = out@;
            out.push(ScoreRow { term, entries });
            proof {
                let frv = freeze_row_view(
                    iv[r as int].1,
                    lv,
                    lv.len() as int,
                    sum_vals(lv),
                    k1g,
                    bg,
                );
                assert(entries_view(entries@) =~= frv);
                assert(frozen_view(out@)[r as int] == (iv[r as int].0, frv));
                assert(spec_freeze(iv, lv, k1g, bg)[r as int] == (iv[r as int].0, frv));
                assert forall|j: int| 0 <= j < r implies frozen_view(out@)[j] == spec_freeze(
                    iv,
                    lv,
                    k1g,
                    bg,
                )[j] by {
                    assert(frozen_view(pre_out)[j] == spec_freeze(iv, lv, k1g, bg)[j]);
                    assert(out@[j] == pre_out[j]);
                }
            }
            r = r + 1;
        }
        self.freeze_map = out;
        proof {
            let sf = spec_freeze(iv, lv, k1g, bg);
            assert(frozen_view(self.freeze_map@) =~= sf);
            assert forall|j: int| 0 <= j < self.freeze_map@.len() implies srow_ok(
                (#[trigger] frozen_view(self.freeze_map@)[j]).1,
            ) by {
                assert(frozen_view(self.freeze_map@)[j] == sf[j]);
                assert(sf[j].1 == freeze_row_view(
                    iv[j].1,
                    lv,
                    lv.len() as int,
                    sum_vals(lv),
                    k1g,
                    bg,
                ));
                assert(prow_ok(iv[j].1, lv));
                let fr = sf[j].1;
                assert(fr.len() == iv[j].1.len());
                assert(forall|a: int| 0 <= a < fr.len() ==> (#[trigger] fr[a]).0 == iv[j].1[a].0);
                assert(keys_distinct(fr));
            }
            assert(row_keys_distinct(frozen_view(self.freeze_map@))) by {
                assert(forall|a: int|
                    0 <= a < sf.len() ==> (#[trigger] sf[a]).0 == iv[a].0);
            }
        }
    }

    /// Removes `id` from every term row, from the length table, and from
    /// every frozen row; rows left empty are pruned entirely. Deleting an
    /// absent id changes nothing. The average-length fraction is left as the
    /// last freeze computed it.
    pub fn delete_document(&mut self, id: Vec<u8>)
        requires
            old(self).wf(),
        ensures
            final(self).wf(),
            index_view(final(self).index_map@) == prune_rows(
                index_view(old(self).index_map@),
                id@,
            ),
            lens_view(final(self).doc_len_map@) == prune_pairs(
                lens_view(old(self).doc_len_map@),
                id@,
            ),
            frozen_view(final(self).freeze_map@) == prune_rows(
                frozen_view(old(self).freeze_map@),
                id@,
            ),
            !has_key(lens_view(final(self).doc_len_map@), id@),
            forall|j: int|
                0 <= j < final(self).index_map@.len() ==> !has_key(
                    (#[trigger] index_view(final(self).index_map@)[j]).1,
                    id@,
                ),
            forall|j: int|
                0 <= j < final(self).freeze_map@.len() ==> !has_key(
                    (#[trigger] frozen_view(final(self).freeze_map@)[j]).1,
                    id@,
                ),
            forall|t: Seq<u8>, d2: Seq<u8>|
                d2 != id@ ==> tf_of(index_view(final(self).index_map@), t, d2) == tf_of(
                    index_view(old(self).index_map@),
                    t,
                    d2,
                ),
            forall|t: Seq<u8>, d2: Seq<u8>|
                d2 != id@ ==> val_of(row_of(frozen_view(final(self).freeze_map@), t), d2) == val_of(
                    row_of(frozen_view(old(self).freeze_map@), t),
                    d2,
                ),
            final(self).k1_milli == old(self).k1_milli,
            final(self).b_milli == old(self).b_milli,
            final(self).avg_len_num == old(self).avg_len_num,
            final(self).avg_len_den == old(self).avg_len_den,
    {
        let ghost oiv = index_view(old(self).index_map@);
        let ghost ofv = frozen_view(old(self).freeze_map@);
        let ghost olv = lens_view(old(self).doc_len_map@);

        let new_lens = prune_lens_exec(&self.doc_len_map, &id);
        self.doc_len_map = new_lens;

        let mut new_rows: Vec<TermRow> = Vec::new();
        let mut i: usize = 0;
        proof {
            assert(oiv.take(0) =~= Seq::<(Seq<u8>, Seq<(Seq<u8>, u64)>)>::empty());
            assert(index_view(new_rows@) =~= prune_rows(oiv.take(0), id@));
        }
        while i < self.index_map.len()
            invariant
                i <= self.index_map@.len(),
                index_view(self.index_map@) == oiv,
                index_view(new_rows@) == prune_rows(oiv.take(i as int), id@),
            decreases self.index_map@.len() - i,
        {
            let pruned = prune_postings_exec(&self.index_map[i].postings, &id);
            let keep = pruned.len() > 0;
            if keep {
                let term = self.index_map[i].term.clone();
                new_rows.push(TermRow { term, postings: pruned });
            }
            proof {
                assert(oiv.take(i + 1) =~= oiv.take(i as int).push(oiv[i as int]));
                lemma_prune_rows_push(oiv.take(i as int), oiv[i as int], id@);
                if keep {
                    assert(index_view(new_rows@) =~= prune_rows(oiv.take(i as int), id@) + seq![
                        (oiv[i as int].0, prune_pairs(oiv[i as int].1, id@)),
                    ]);
                } else {
                    assert(prune_pairs(oiv[i as int].1, id@).len() == 0);
                    assert(index_view(new_rows@) =~= prune_rows(oiv.take(i as int), id@)
                        + Seq::<(Seq<u8>, Seq<(Seq<u8>, u64)>)>::empty());
                }
            }
            i = i + 1;
        }
        proof {
            assert(oiv.take(self.index_map@.len() as int) =~= oiv);
        }
        self.index_map = new_rows;

        let mut new_frozen: Vec<ScoreRow> = Vec::new();
        let mut f: usize = 0;
        proof {
            assert(ofv.take(0) =~= Seq::<(Seq<u8>, Seq<(Seq<u8>, u64)>)>::empty());
            assert(frozen_view(new_frozen@) =~= prune_rows(ofv.take(0), id@));
        }
        while f < self.freeze_map.len()
            invariant
                f <= self.freeze_map@.len(),
                frozen_view(self.freeze_map@) == ofv,
                frozen_view(new_frozen@) == prune_rows(ofv.take(f as int), id@),
            decreases self.freeze_map@.len() - f,
        {
            let pruned = prune_entries_exec(&self.freeze_map[f].entries, &id);
            let keep = pruned.len() > 0;
            if keep {
                let term = self.freeze_map[f].term.clone();
                new_frozen.push(ScoreRow { term, entries: pruned });
            }
            proof {
                assert(ofv.take(f + 1) =~= ofv.take(f as int).push(ofv[f as int]));
                lemma_prune_rows_push(ofv.take(f as int), ofv[f as int], id@);
                if keep {
                    assert(frozen_view(new_frozen@) =~= prune_rows(ofv.take(f as int), id@) + seq![
                        (ofv[f as int].0, prune_pairs(ofv[f as int].1, id@)),
                    ]);
                } else {
                    assert(prune_pairs(ofv[f as int].1, id@).len() == 0);
                    assert(frozen_view(new_frozen@) =~= prune_rows(ofv.take(f as int), id@)
                        + Seq::<(Seq<u8>, Seq<(Seq<u8>, u64)>)>::empty());
                }
            }
            f = f + 1;
        }
        proof {
            assert(ofv.take(self.freeze_map@.len() as int) =~= ofv);
        }
        self.freeze_map = new_frozen;

        proof {
            let niv = index_view(self.index_map@);
            let nfv = frozen_view(self.freeze_map@);
            let nlv = lens_view(self.doc_len_map@);
            lemma_prune_pairs_elems(olv, id@);
            lemma_prune_pairs_has(olv, id@, id@);
            lemma_prune_rows_elems(oiv, id@);
            lemma_prune_rows_elems(ofv, id@);
            assert forall|j: int| 0 <= j < niv.len() implies prow_ok(
                (#[trigger] niv[j]).1,
                nlv,
            ) && !has_key(niv[j].1, id@) by {
                let a = choose|a: int|
                    0 <= a < oiv.len() && niv[j].0 == oiv[a].0 && niv[j].1 == prune_pairs(
                        oiv[a].1,
                        id@,
                    ) && prune_pairs(oiv[a].1, id@).len() >= 1;
                assert(prow_ok(oiv[a].1, olv));
                lemma_prune_pairs_elems(oiv[a].1, id@);
                lemma_prune_pairs_has(oiv[a].1, id@, id@);
                assert forall|k: int| 0 <= k < niv[j].1.len() implies 1 <= (
                #[trigger] niv[j].1[k]).1 <= u32::MAX && has_key(nlv, niv[j].1[k].0) by {
                    let b = choose|b: int|
                        0 <= b < oiv[a].1.len() && oiv[a].1[b] == prune_pairs(oiv[a].1, id@)[k];
                    assert(1 <= oiv[a].1[b].1 <= u32::MAX);
                    assert(has_key(olv, oiv[a].1[b].0));
                    lemma_prune_pairs_has(olv, id@, oiv[a].1[b].0);
                }
            }
            assert forall|j: int| 0 <= j < nfv.len() implies srow_ok((#[trigger] nfv[j]).1)
                && !has_key(nfv[j].1, id@) by {
                let a = choose|a: int|
                    0 <= a < ofv.len() && nfv[j].0 == ofv[a].0 && nfv[j].1 == prune_pairs(
                        ofv[a].1,
                        id@,
                    ) && prune_pairs(ofv[a].1, id@).len() >= 1;
                assert(srow_ok(ofv[a].1));
                lemma_prune_pairs_elems(ofv[a].1, id@);
                lemma_prune_pairs_has(ofv[a].1, id@, id@);
            }
            assert forall|t: Seq<u8>, d2: Seq<u8>| d2 != id@ implies tf_of(niv, t, d2) == tf_of(
                oiv,
                t,
                d2,
            ) by {
                lemma_prune_rows_val(oiv, id@, t, d2);
            }
            assert forall|t: Seq<u8>, d2: Seq<u8>| d2 != id@ implies val_of(
                row_of(nfv, t),
                d2,
            ) == val_of(row_of(ofv, t), d2) by {
                lemma_prune_rows_val(ofv, id@, t, d2);
            }
        }
    }
}

} // verus!
