use memexpert::fusion::{rrf_fuse, RRF_K};
use memexpert::model::SearchParams;
use memexpert::search::fuse_search_hits;

fn fuse(lists: &[&[u64]], k: u64, limit: usize) -> Vec<u64> {
    let lists: Vec<Vec<u64>> = lists.iter().map(|l| l.to_vec()).collect();
    rrf_fuse(&lists, k, limit)
}

/// Reference value of a fused score, for checking the order by hand.
fn score(lists: &[&[u64]], k: u64, id: u64) -> f64 {
    lists
        .iter()
        .filter_map(|l| l.iter().position(|x| *x == id))
        .map(|p| 1.0 / (k as f64 + p as f64 + 1.0))
        .sum()
}

#[test]
fn rrf_scoring_example() {
    let a: &[u64] = &[10, 20, 30];
    let b: &[u64] = &[20, 10, 40];
    // 10 and 20 both score 1/61 + 1/62; 30 and 40 both score 1/63: ties go to the smaller id.
    assert_eq!(score(&[a, b], 60, 10), score(&[a, b], 60, 20));
    assert_eq!(score(&[a, b], 60, 30), score(&[a, b], 60, 40));
    assert!(score(&[a, b], 60, 10) > score(&[a, b], 60, 30));
    assert_eq!(fuse(&[a, b], 60, 10), vec![10, 20, 30, 40]);
}

#[test]
fn rrf_is_deterministic() {
    let a: &[u64] = &[5, 3, 9, 1];
    let b: &[u64] = &[9, 7, 5];
    let first = fuse(&[a, b], RRF_K, 10);
    let second = fuse(&[a, b], RRF_K, 10);
    assert_eq!(first, second);
    // 5: 1/61 + 1/63, 9: 1/63 + 1/61 tie, 5 < 9; then 3 (1/62), 7 (1/62), 1 (1/64).
    assert_eq!(first, vec![5, 9, 3, 7, 1]);
}

#[test]
fn rrf_truncates_to_limit() {
    let a: &[u64] = &[1, 2, 3, 4];
    assert_eq!(fuse(&[a], RRF_K, 2), vec![1, 2]);
    assert_eq!(fuse(&[a], RRF_K, 0), Vec::<u64>::new());
}

#[test]
fn rrf_empty_lists() {
    assert_eq!(fuse(&[], RRF_K, 5), Vec::<u64>::new());
    let e: &[u64] = &[];
    assert_eq!(fuse(&[e, e], RRF_K, 5), Vec::<u64>::new());
}

#[test]
fn rrf_item_in_both_lists_beats_top_of_one() {
    // 2 is second in both lists: 2/62 > 1/61 of the heads.
    let a: &[u64] = &[1, 2];
    let b: &[u64] = &[3, 2];
    assert_eq!(fuse(&[a, b], 60, 10), vec![2, 1, 3]);
}

#[test]
fn rrf_repeated_id_counts_first_rank() {
    let a: &[u64] = &[4, 8, 4];
    let b: &[u64] = &[8];
    // 8: 1/62 + 1/61; 4: 1/61 only.
    assert_eq!(fuse(&[a, b], 60, 10), vec![8, 4]);
}

#[test]
fn rrf_small_k_changes_order() {
    // With k = 0: 1 gets 1/1 = 1; 2 gets 1/2 + 1/2 = 1: tie, 1 first.
    let a: &[u64] = &[1, 2];
    let b: &[u64] = &[3, 2];
    assert_eq!(fuse(&[a, b], 0, 10), vec![1, 2, 3]);
    // With k = 1: 1 gets 1/2, 2 gets 1/3 + 1/3 = 2/3.
    assert_eq!(fuse(&[a, b], 1, 10), vec![2, 1, 3]);
}

#[test]
fn search_hits_respect_prefetch_limits() {
    let params = SearchParams { text_limit: 2, clip_limit: 1, page_size: 10 };
    let text = vec![1, 2, 3];
    let image = vec![4, 5];
    // Only [1, 2] and [4] take part: 1 and 4 tie at 1/61.
    assert_eq!(fuse_search_hits(&text, &image, &params), vec![1, 4, 2]);
}

#[test]
fn search_hits_page_size() {
    let params = SearchParams { text_limit: 50, clip_limit: 5, page_size: 2 };
    let text = vec![7, 8, 9];
    let image = vec![9];
    assert_eq!(fuse_search_hits(&text, &image, &params), vec![9, 7]);
}

#[test]
fn search_params_default() {
    let p = SearchParams::default();
    assert_eq!((p.text_limit, p.clip_limit, p.page_size), (50, 5, 50));
}
