//! The engine's cross-cutting guarantees, stated over the same views that
//! the operations' contracts use.

use vstd::prelude::*;

verus! {

use crate::bm25::BM25;
use crate::bm25::SearchError;
use crate::bm25::index_view;
use crate::bm25::lens_view;
use crate::bm25::frozen_view;
use crate::bm25::spec_freeze;
use crate::bm25::has_key;
use crate::bm25::has_row;
use crate::bm25::row_of;
use crate::bm25::prune_rows;
use crate::bm25::prune_pairs;
use crate::bm25::prow_ok;
use crate::bm25::srow_ok;
use crate::bm25::res_mentions;
use crate::bm25::is_candidate;
use crate::bm25::dedup_toks;
use crate::bm25::lemma_has_row_unfold;
use crate::bm25::lemma_prune_rows_identity;
use crate::bm25::lemma_prune_pairs_identity;
use crate::bm25::total_score;
use crate::bm25::val_of;
use crate::bm25::lemma_val_nonneg;

/// Freezing is deterministic: two indexes holding the same term index, the
/// same length table and the same smoothing constants freeze to identical
/// score tables. Since `freeze` leaves the term index and the length table
/// untouched, freezing twice in a row without intervening mutation yields the
/// same frozen table both times.
pub proof fn lemma_freeze_deterministic(a: BM25, b: BM25)
    requires
        index_view(a.index_map@) == index_view(b.index_map@),
        lens_view(a.doc_len_map@) == lens_view(b.doc_len_map@),
        a.k1_milli == b.k1_milli,
        a.b_milli == b.b_milli,
    ensures
        spec_freeze(
            index_view(a.index_map@),
            lens_view(a.doc_len_map@),
            a.k1_milli as int,
            a.b_milli as int,
        ) == spec_freeze(
            index_view(b.index_map@),
            lens_view(b.doc_len_map@),
            b.k1_milli as int,
            b.b_milli as int,
        ),
{
}

/// A looked-up row is one of the table's rows, or empty when the term is
/// absent.
pub proof fn lemma_row_of_member(v: Seq<(Seq<u8>, Seq<(Seq<u8>, u64)>)>, t: Seq<u8>)
    ensures
        has_row(v, t) ==> exists|a: int| 0 <= a < v.len() && (#[trigger] v[a]).1 == row_of(v, t),
        !has_row(v, t) ==> row_of(v, t) == Seq::<(Seq<u8>, u64)>::empty(),
    decreases v.len(),
{
    if v.len() == 0 {
        if has_row(v, t) {
            let a = choose|a: int| 0 <= a < v.len() && v[a].0 == t;
            assert(false);
        }
    } else {
        lemma_has_row_unfold(v, t);
        lemma_row_of_member(v.skip(1), t);
        if v[0].0 == t {
            assert(v[0].1 == row_of(v, t));
        } else if has_row(v, t) {
            let a = choose|a: int|
                0 <= a < v.skip(1).len() && (#[trigger] v.skip(1)[a]).1 == row_of(v.skip(1), t);
            assert(v[a + 1] == v.skip(1)[a]);
            assert(v[a + 1].1 == row_of(v, t));
        }
    }
}

/// Deletion is complete: a document mentioned by no frozen row is never
/// among a search's results. Together with what `delete_document` ensures —
/// that afterwards no term row and no frozen row mentions the id — a deleted
/// document can never surface again.
pub proof fn lemma_unmentioned_never_returned(
    x: BM25,
    q: Seq<Vec<u8>>,
    n: int,
    r: Result<Vec<(Vec<u8>, u64)>, SearchError>,
    d: Seq<u8>,
)
    requires
        forall|j: int|
            0 <= j < x.freeze_map@.len() ==> !has_key(
                (#[trigger] frozen_view(x.freeze_map@)[j]).1,
                d,
            ),
        x.search_post(q, n, r),
    ensures
        match r {
            Ok(res) => !res_mentions(res@, d),
            Err(_) => true,
        },
{
    let fv = frozen_view(x.freeze_map@);
    match r {
        Ok(res) => {
            if res_mentions(res@, d) {
                let i = choose|i: int| 0 <= i < res@.len() && res@[i].0@ == d;
                assert(is_candidate(fv, dedup_toks(q), res@[i].0@));
                let j = choose|j: int|
                    0 <= j < dedup_toks(q).len() && has_key(row_of(fv, dedup_toks(q)[j]), d);
                lemma_row_of_member(fv, dedup_toks(q)[j]);
                if has_row(fv, dedup_toks(q)[j]) {
                    let a = choose|a: int|
                        0 <= a < fv.len() && (#[trigger] fv[a]).1 == row_of(fv, dedup_toks(q)[j]);
                    assert(!has_key(fv[a].1, d));
                    assert(false);
                } else {
                    assert(row_of(fv, dedup_toks(q)[j]) == Seq::<(Seq<u8>, u64)>::empty());
                    let b = choose|b: int|
                        0 <= b < row_of(fv, dedup_toks(q)[j]).len() && row_of(
                            fv,
                            dedup_toks(q)[j],
                        )[b].0 == d;
                    assert(false);
                }
            }
        },
        Err(_) => {},
    }
}

/// For a single-term query the accumulated score is exactly that term's
/// precomputed contribution, so `search`'s ordering clause says: documents
/// come back in non-increasing order of the term's precomputed score.
pub proof fn lemma_single_term_score(
    fv: Seq<(Seq<u8>, Seq<(Seq<u8>, u64)>)>,
    t: Seq<u8>,
    d: Seq<u8>,
)
    ensures
        total_score(fv, seq![t], d) == val_of(row_of(fv, t), d),
{
    let terms = seq![t];
    assert(terms.drop_last() =~= Seq::<Seq<u8>>::empty());
    assert(terms.last() == t);
    assert(total_score(fv, Seq::<Seq<u8>>::empty(), d) == 0);
    lemma_val_nonneg(row_of(fv, t), d);
}

/// Deleting an absent document is a no-op: when neither the length table nor
/// any frozen row knows the id, pruning leaves the term index, the length
/// table and the frozen table exactly as they were.
pub proof fn lemma_delete_absent_identity(x: BM25, d: Seq<u8>)
    requires
        x.wf(),
        !has_key(lens_view(x.doc_len_map@), d),
        forall|j: int|
            0 <= j < x.freeze_map@.len() ==> !has_key(
                (#[trigger] frozen_view(x.freeze_map@)[j]).1,
                d,
            ),
    ensures
        prune_rows(index_view(x.index_map@), d) == index_view(x.index_map@),
        prune_pairs(lens_view(x.doc_len_map@), d) == lens_view(x.doc_len_map@),
        prune_rows(frozen_view(x.freeze_map@), d) == frozen_view(x.freeze_map@),
{
    let iv = index_view(x.index_map@);
    let fv = frozen_view(x.freeze_map@);
    let lv = lens_view(x.doc_len_map@);
    assert forall|j: int| 0 <= j < iv.len() implies !has_key((#[trigger] iv[j]).1, d) by {
        if has_key(iv[j].1, d) {
            let a = choose|a: int| 0 <= a < iv[j].1.len() && iv[j].1[a].0 == d;
            assert(prow_ok(iv[j].1, lv));
            assert(has_key(lv, iv[j].1[a].0));
        }
    }
    assert(forall|j: int| 0 <= j < iv.len() ==> (#[trigger] iv[j]).1.len() >= 1) by {
        assert(forall|j: int| 0 <= j < iv.len() ==> prow_ok((#[trigger] iv[j]).1, lv));
    }
    assert(forall|j: int| 0 <= j < fv.len() ==> (#[trigger] fv[j]).1.len() >= 1) by {
        assert(forall|j: int| 0 <= j < fv.len() ==> srow_ok((#[trigger] fv[j]).1));
    }
    lemma_prune_rows_identity(iv, d);
    lemma_prune_pairs_identity(lv, d);
    lemma_prune_rows_identity(fv, d);
}

} // verus!
