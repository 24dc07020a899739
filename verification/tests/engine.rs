use bm25_engine::bm25::{SearchError, BM25};
use bm25_engine::codec::LoadError;
use bm25_engine::score::{add_clamp, ln_fp, log2_floor, score_of, IDF_UNIT, LN2_FP, SCORE_SCALE};

fn b(s: &str) -> Vec<u8> {
    s.as_bytes().to_vec()
}

fn toks(ws: &[&str]) -> Vec<Vec<u8>> {
    ws.iter().map(|w| b(w)).collect()
}

#[test]
fn log2_floor_values() {
    assert_eq!(log2_floor(0), 0);
    assert_eq!(log2_floor(1), 0);
    assert_eq!(log2_floor(2), 1);
    assert_eq!(log2_floor(3), 1);
    assert_eq!(log2_floor(4), 2);
    assert_eq!(log2_floor(1024), 10);
    assert_eq!(log2_floor(u64::MAX), 63);
}

#[test]
fn add_clamp_saturates() {
    assert_eq!(add_clamp(1, 2), 3);
    assert_eq!(add_clamp(u64::MAX, 1), u64::MAX);
    assert_eq!(add_clamp(u64::MAX - 5, 5), u64::MAX);
}

#[test]
fn ln_fp_values() {
    assert_eq!(ln_fp(1), 0);
    assert_eq!(ln_fp(2), LN2_FP);
    // interpolated halfway between 2 and 4
    assert_eq!(ln_fp(3), LN2_FP + LN2_FP / 2);
    assert_eq!(ln_fp(4), 2 * LN2_FP);
}

#[test]
fn score_of_exact_value() {
    // tf=2, two documents, doc length 3, token total 6, defaults, df=1:
    // tf factor 1428/1000, idf factor 1 + ln(3/2) interpolated.
    assert_eq!(score_of(2, 2, 3, 6, 1500, 750, 1), 1428 * (IDF_UNIT + LN2_FP / 2));
    // tf=1, three equal documents of length 1, df=3: both factors are one.
    assert_eq!(score_of(1, 3, 1, 3, 1500, 750, 3), SCORE_SCALE);
}

#[test]
fn rarer_term_scores_strictly_higher() {
    // three documents of equal length; "rare" is held by one, "common" by two
    let mut idx = BM25::new();
    idx.add_document(b("d1"), toks(&["rare"]));
    idx.add_document(b("d2"), toks(&["common"]));
    idx.add_document(b("d3"), toks(&["common"]));
    idx.freeze();
    let rare = idx.search(toks(&["rare"]), 10).unwrap();
    let common = idx.search(toks(&["common"]), 10).unwrap();
    assert_eq!(rare[0].1, 7_272_011_767_000);
    assert_eq!(common[0].1, 5_783_489_532_000);
    assert!(rare[0].1 > common[0].1);
}

#[test]
fn scenario_single_term_exact_hit() {
    let mut idx = BM25::new();
    idx.add_document(b("d1"), toks(&["cat", "dog", "cat"]));
    idx.add_document(b("d2"), toks(&["dog", "dog", "fish"]));
    idx.freeze();
    let res = idx.search(toks(&["cat"]), 10).unwrap();
    assert_eq!(res.len(), 1);
    assert_eq!(res[0].0, b("d1"));
    assert!(res[0].1 > 0);
    assert_eq!(res[0].1, 1428 * (IDF_UNIT + LN2_FP / 2));
}

#[test]
fn scenario_limit_respected_equal_scores() {
    let mut idx = BM25::new();
    idx.add_document(b("d1"), toks(&["x"]));
    idx.add_document(b("d2"), toks(&["x"]));
    idx.add_document(b("d3"), toks(&["x"]));
    idx.freeze();
    let res = idx.search(toks(&["x"]), 2).unwrap();
    assert_eq!(res.len(), 2);
    assert_eq!(res[0].1, res[1].1);
    assert_ne!(res[0].0, res[1].0);
    let ids = [b("d1"), b("d2"), b("d3")];
    assert!(ids.contains(&res[0].0));
    assert!(ids.contains(&res[1].0));
    assert_eq!(res[0].1, SCORE_SCALE);
}

#[test]
fn equal_scores_order_by_document_bytes() {
    let mut idx = BM25::new();
    idx.add_document(b("m2"), toks(&["x"]));
    idx.add_document(b("m3"), toks(&["x"]));
    idx.add_document(b("m1"), toks(&["x"]));
    idx.freeze();
    let res = idx.search(toks(&["x"]), 2).unwrap();
    assert_eq!(res[0].0, b("m1"));
    assert_eq!(res[1].0, b("m2"));
    // duplicate query terms cannot change the (fully determined) result
    let twice = idx.search(toks(&["x", "x"]), 2).unwrap();
    assert_eq!(res, twice);
}

#[test]
fn scenario_delete_after_freeze() {
    let mut idx = BM25::new();
    idx.add_document(b("d1"), toks(&["cat", "dog", "cat"]));
    idx.add_document(b("d2"), toks(&["dog", "dog", "fish"]));
    idx.freeze();
    idx.delete_document(b("d1"));
    let res = idx.search(toks(&["cat"]), 10).unwrap();
    assert!(res.is_empty());
}

#[test]
fn scenario_unknown_term_empty_not_error() {
    let mut idx = BM25::new();
    idx.add_document(b("d1"), toks(&["cat"]));
    idx.freeze();
    let res = idx.search(toks(&["zzz-never-indexed"]), 5).unwrap();
    assert!(res.is_empty());
}

#[test]
fn scenario_search_before_freeze_is_error() {
    let idx = BM25::new();
    assert_eq!(idx.search(toks(&["cat"]), 5), Err(SearchError::NotFrozen));
    let mut idx2 = BM25::new();
    idx2.add_document(b("d1"), toks(&["cat"]));
    assert_eq!(idx2.search(toks(&["cat"]), 5), Err(SearchError::NotFrozen));
}

#[test]
fn monotonic_ranking_single_term() {
    let mut idx = BM25::new();
    idx.add_document(b("a"), toks(&["t", "t", "t", "u"]));
    idx.add_document(b("b"), toks(&["t", "u", "u", "u"]));
    idx.add_document(b("c"), toks(&["t", "t", "u", "u"]));
    idx.freeze();
    let res = idx.search(toks(&["t"]), 10).unwrap();
    assert_eq!(res.len(), 3);
    for w in res.windows(2) {
        assert!(w[0].1 >= w[1].1);
    }
    assert_eq!(res[0].0, b("a"));
}

#[test]
fn deletion_completeness() {
    let mut idx = BM25::new();
    idx.add_document(b("gone"), toks(&["cat", "dog"]));
    idx.add_document(b("kept"), toks(&["cat", "fish"]));
    idx.freeze();
    idx.delete_document(b("gone"));
    for q in [&["cat"][..], &["dog"][..], &["fish"][..], &["cat", "dog", "fish"][..]] {
        let res = idx.search(toks(q), 10).unwrap();
        assert!(res.iter().all(|(id, _)| id != &b("gone")));
    }
    let res = idx.search(toks(&["cat"]), 10).unwrap();
    assert_eq!(res.len(), 1);
    assert_eq!(res[0].0, b("kept"));
}

#[test]
fn idempotent_deletion() {
    let mut idx = BM25::new();
    idx.add_document(b("d1"), toks(&["cat", "dog"]));
    idx.freeze();
    let before = idx.save();
    idx.delete_document(b("never-inserted"));
    let after = idx.save();
    assert_eq!(before, after);
}

#[test]
fn freeze_deterministic() {
    let mut idx = BM25::new();
    idx.add_document(b("d1"), toks(&["cat", "dog", "cat"]));
    idx.add_document(b("d2"), toks(&["dog"]));
    idx.freeze();
    let first = idx.save();
    idx.freeze();
    let second = idx.save();
    assert_eq!(first, second);
}

#[test]
fn round_trip_empty() {
    let idx = BM25::new();
    let bytes = idx.save();
    let loaded = BM25::load(&bytes).unwrap();
    assert_eq!(loaded.save(), bytes);
}

#[test]
fn round_trip_unfrozen() {
    let mut idx = BM25::new();
    idx.add_document(b("d1"), toks(&["cat", "dog", "cat"]));
    let bytes = idx.save();
    let loaded = BM25::load(&bytes).unwrap();
    assert_eq!(loaded.save(), bytes);
}

#[test]
fn round_trip_frozen_preserves_search() {
    let mut idx = BM25::new();
    idx.add_document(b("d1"), toks(&["cat", "dog", "cat"]));
    idx.add_document(b("d2"), toks(&["dog", "dog", "fish"]));
    idx.freeze();
    let bytes = idx.save();
    let loaded = BM25::load(&bytes).unwrap();
    assert_eq!(loaded.save(), bytes);
    assert_eq!(
        loaded.search(toks(&["cat"]), 10).unwrap(),
        idx.search(toks(&["cat"]), 10).unwrap()
    );
}

#[test]
fn load_rejects_corrupt() {
    assert_eq!(BM25::load(&Vec::new()), Err(LoadError::Corrupt));
    assert_eq!(BM25::load(&vec![1, 2, 3]), Err(LoadError::Corrupt));
    let mut idx = BM25::new();
    idx.add_document(b("d1"), toks(&["cat"]));
    idx.freeze();
    let mut bytes = idx.save();
    bytes.pop();
    assert_eq!(BM25::load(&bytes), Err(LoadError::Corrupt));
    let mut idx2 = BM25::new();
    idx2.add_document(b("d1"), toks(&["cat"]));
    let mut trailing = idx2.save();
    trailing.push(0);
    assert_eq!(BM25::load(&trailing), Err(LoadError::Corrupt));
}

#[test]
fn batch_search_preserves_order() {
    let mut idx = BM25::new();
    idx.add_document(b("d1"), toks(&["cat"]));
    idx.add_document(b("d2"), toks(&["dog"]));
    idx.freeze();
    let queries = vec![toks(&["cat"]), toks(&["dog"]), toks(&["fish"])];
    let res = idx.batch_search(queries, 10);
    assert_eq!(res.len(), 3);
    assert_eq!(res[0].as_ref().unwrap()[0].0, b("d1"));
    assert_eq!(res[1].as_ref().unwrap()[0].0, b("d2"));
    assert!(res[2].as_ref().unwrap().is_empty());
}

#[test]
fn duplicate_query_terms_counted_once() {
    let mut idx = BM25::new();
    idx.add_document(b("d1"), toks(&["cat"]));
    idx.freeze();
    let once = idx.search(toks(&["cat"]), 10).unwrap();
    let twice = idx.search(toks(&["cat", "cat"]), 10).unwrap();
    assert_eq!(once, twice);
}

#[test]
fn multi_term_scores_accumulate() {
    let mut idx = BM25::new();
    idx.add_document(b("d1"), toks(&["cat", "dog"]));
    idx.add_document(b("d2"), toks(&["cat", "cat"]));
    idx.freeze();
    let cat = idx.search(toks(&["cat"]), 10).unwrap();
    let dog = idx.search(toks(&["dog"]), 10).unwrap();
    let both = idx.search(toks(&["cat", "dog"]), 10).unwrap();
    let d1_cat = cat.iter().find(|(id, _)| id == &b("d1")).unwrap().1;
    let d1_dog = dog.iter().find(|(id, _)| id == &b("d1")).unwrap().1;
    let d1_both = both.iter().find(|(id, _)| id == &b("d1")).unwrap().1;
    assert_eq!(d1_both, d1_cat + d1_dog);
}

#[test]
fn delete_empties_index() {
    let mut idx = BM25::new();
    idx.add_document(b("d1"), toks(&["cat"]));
    idx.freeze();
    idx.delete_document(b("d1"));
    // the frozen table was pruned to nothing, so searching fails fast again
    assert_eq!(idx.search(toks(&["cat"]), 10), Err(SearchError::NotFrozen));
}
