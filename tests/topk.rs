use rand::seq::SliceRandom;
use topk::{simplified_heap_top_k, simplified_median_top_k, HeapTopK, Hit, MedianTopK, TopK};

fn hits_from_scores(scores: &[u64]) -> Vec<Hit> {
    scores
        .iter()
        .enumerate()
        .map(|(i, &score)| Hit { score, doc: i as u32 })
        .collect()
}

fn sort_desc(hits: &mut Vec<Hit>) {
    hits.sort_unstable_by(|a, b| b.score.cmp(&a.score));
}

fn scores(hits: &[Hit]) -> Vec<u64> {
    hits.iter().map(|h| h.score).collect()
}

fn selector_scores<T: TopK>(hits: &[Hit], k: usize) -> Vec<u64> {
    let mut selector = T::new(k);
    let mut output = Vec::new();
    selector.top_k(hits, &mut output);
    sort_desc(&mut output);
    scores(&output)
}

fn test_topk_util<T: TopK>(n: usize, k: usize) {
    let mut rng = rand::thread_rng();
    let mut hits: Vec<Hit> = (0..n).map(|i| Hit { score: i as u64, doc: i as u32 }).collect();
    let mut output = Vec::new();
    let mut top_k = T::new(k);
    for _ in 0..10 {
        hits.shuffle(&mut rng);
        top_k.top_k(&hits, &mut output);
        sort_desc(&mut output);
        let m = n.min(k);
        assert_eq!(output.len(), m);
        for (hit, expected_score) in output.iter().zip((0..n).rev()) {
            assert_eq!(hit.score, expected_score as u64);
        }
    }
}

#[test]
fn test_top_k_heap() {
    test_topk_util::<HeapTopK>(100, 3);
}

#[test]
fn test_top_k_fast() {
    test_topk_util::<MedianTopK>(100, 3);
}

#[test]
fn test_heap_top_k_simplified() {
    let mut rng = rand::thread_rng();
    let n = 100;
    let k = 10;
    let mut hits: Vec<Hit> = (0..n).map(|i| Hit { score: i as u64, doc: i as u32 }).collect();
    for _ in 0..10 {
        hits.shuffle(&mut rng);
        let output = simplified_heap_top_k(&hits, k);
        assert_eq!(output.len(), k);
        for (hit, expected_score) in output.iter().zip((0..n).rev()) {
            assert_eq!(hit.score, expected_score as u64);
        }
    }
}

#[test]
fn test_median_top_k() {
    let mut rng = rand::thread_rng();
    let n = 100;
    let k = 10;
    let mut hits: Vec<Hit> = (0..n).map(|i| Hit { score: i as u64, doc: i as u32 }).collect();
    for _ in 0..10 {
        hits.shuffle(&mut rng);
        let output = simplified_median_top_k(&hits, k);
        assert_eq!(output.len(), k);
        for (hit, expected_score) in output.iter().zip((0..n).rev()) {
            assert_eq!(hit.score, expected_score as u64);
        }
    }
}

#[test]
fn small_stream_two_best_scores() {
    let hits = hits_from_scores(&[5, 1, 9, 3]);
    assert_eq!(scores(&simplified_heap_top_k(&hits, 2)), vec![9, 5]);
    assert_eq!(scores(&simplified_median_top_k(&hits, 2)), vec![9, 5]);
    assert_eq!(selector_scores::<HeapTopK>(&hits, 2), vec![9, 5]);
    assert_eq!(selector_scores::<MedianTopK>(&hits, 2), vec![9, 5]);
}

#[test]
fn million_ascending_hits_top_ten() {
    let hits: Vec<Hit> = (0..1_000_000u64).map(|i| Hit { score: i, doc: i as u32 }).collect();
    let expected: Vec<u64> = (999_990..1_000_000u64).rev().collect();
    assert_eq!(selector_scores::<HeapTopK>(&hits, 10), expected);
    assert_eq!(selector_scores::<MedianTopK>(&hits, 10), expected);
    assert_eq!(scores(&simplified_heap_top_k(&hits, 10)), expected);
    assert_eq!(scores(&simplified_median_top_k(&hits, 10)), expected);
}

#[test]
fn million_shuffled_hits_top_ten() {
    let mut rng = rand::thread_rng();
    let mut hits: Vec<Hit> = (0..1_000_000u64).map(|i| Hit { score: i, doc: i as u32 }).collect();
    hits.shuffle(&mut rng);
    let expected: Vec<u64> = (999_990..1_000_000u64).rev().collect();
    assert_eq!(selector_scores::<HeapTopK>(&hits, 10), expected);
    assert_eq!(selector_scores::<MedianTopK>(&hits, 10), expected);
    assert_eq!(scores(&simplified_heap_top_k(&hits, 10)), expected);
    assert_eq!(scores(&simplified_median_top_k(&hits, 10)), expected);
}

#[test]
fn short_stream_returns_every_hit() {
    let hits = hits_from_scores(&[7, 3]);
    assert_eq!(scores(&simplified_heap_top_k(&hits, 5)), vec![7, 3]);
    assert_eq!(scores(&simplified_median_top_k(&hits, 5)), vec![7, 3]);
    assert_eq!(selector_scores::<HeapTopK>(&hits, 5), vec![7, 3]);
    assert_eq!(selector_scores::<MedianTopK>(&hits, 5), vec![7, 3]);
    let heap = simplified_heap_top_k(&hits, 5);
    assert_eq!(heap, vec![Hit { score: 7, doc: 0 }, Hit { score: 3, doc: 1 }]);
}

#[test]
fn empty_stream_gives_empty_result() {
    let hits: Vec<Hit> = Vec::new();
    assert!(simplified_heap_top_k(&hits, 3).is_empty());
    assert!(simplified_median_top_k(&hits, 3).is_empty());
    assert!(selector_scores::<HeapTopK>(&hits, 3).is_empty());
    assert!(selector_scores::<MedianTopK>(&hits, 3).is_empty());
}

#[test]
fn retention_of_one_gives_the_maximum() {
    let hits = hits_from_scores(&[4, 8, 2, 8, 6, 1]);
    assert_eq!(scores(&simplified_heap_top_k(&hits, 1)), vec![8]);
    assert_eq!(scores(&simplified_median_top_k(&hits, 1)), vec![8]);
    assert_eq!(selector_scores::<HeapTopK>(&hits, 1), vec![8]);
    assert_eq!(selector_scores::<MedianTopK>(&hits, 1), vec![8]);
}

#[test]
fn retention_equal_to_length_gives_everything() {
    let hits = hits_from_scores(&[4, 0, 2, 9, 6]);
    let expected = vec![9, 6, 4, 2, 0];
    assert_eq!(scores(&simplified_heap_top_k(&hits, 5)), expected);
    assert_eq!(scores(&simplified_median_top_k(&hits, 5)), expected);
    assert_eq!(selector_scores::<HeapTopK>(&hits, 5), expected);
    assert_eq!(selector_scores::<MedianTopK>(&hits, 5), expected);
}

#[test]
fn zero_scores_are_kept_when_needed() {
    let hits = hits_from_scores(&[0, 0, 0, 0, 0, 0, 0]);
    assert_eq!(selector_scores::<MedianTopK>(&hits, 3), vec![0, 0, 0]);
    assert_eq!(selector_scores::<HeapTopK>(&hits, 3), vec![0, 0, 0]);
    assert_eq!(scores(&simplified_median_top_k(&hits, 3)), vec![0, 0, 0]);
}

#[test]
fn descending_stream() {
    let hits: Vec<Hit> = (0..1000u64).rev().map(|i| Hit { score: i, doc: i as u32 }).collect();
    let expected = vec![999, 998, 997, 996];
    assert_eq!(selector_scores::<HeapTopK>(&hits, 4), expected);
    assert_eq!(selector_scores::<MedianTopK>(&hits, 4), expected);
    assert_eq!(scores(&simplified_median_top_k(&hits, 4)), expected);
    assert_eq!(scores(&simplified_heap_top_k(&hits, 4)), expected);
}

#[test]
fn reused_selector_forgets_earlier_stream() {
    let first = hits_from_scores(&[100, 200, 300, 400]);
    let second = hits_from_scores(&[1, 5, 3]);
    let mut heap = HeapTopK::new(2);
    let mut median = MedianTopK::new(2);
    let mut output = vec![Hit { score: 77, doc: 77 }];
    heap.top_k(&first, &mut output);
    sort_desc(&mut output);
    assert_eq!(scores(&output), vec![400, 300]);
    heap.top_k(&second, &mut output);
    sort_desc(&mut output);
    assert_eq!(scores(&output), vec![5, 3]);
    median.top_k(&first, &mut output);
    sort_desc(&mut output);
    assert_eq!(scores(&output), vec![400, 300]);
    median.top_k(&second, &mut output);
    sort_desc(&mut output);
    assert_eq!(scores(&output), vec![5, 3]);
    median.top_k(&second[..1], &mut output);
    assert_eq!(output, vec![Hit { score: 1, doc: 0 }]);
}

#[test]
fn tied_scores_keep_the_right_count() {
    let hits = hits_from_scores(&[5, 9, 5, 5, 1]);
    assert_eq!(selector_scores::<HeapTopK>(&hits, 3), vec![9, 5, 5]);
    assert_eq!(selector_scores::<MedianTopK>(&hits, 3), vec![9, 5, 5]);
    let sorted = simplified_median_top_k(&hits, 3);
    assert_eq!(scores(&sorted), vec![9, 5, 5]);
    assert_eq!(sorted[0], Hit { score: 9, doc: 1 });
    for h in &sorted[1..] {
        assert!(h.doc == 0 || h.doc == 2 || h.doc == 3);
    }
}

#[test]
fn output_is_drawn_from_the_stream() {
    let hits = hits_from_scores(&[12, 40, 7, 33, 40, 2, 19, 25]);
    let mut output = Vec::new();
    let mut median = MedianTopK::new(3);
    median.top_k(&hits, &mut output);
    for h in &output {
        assert!(hits.contains(h));
    }
    sort_desc(&mut output);
    assert_eq!(scores(&output), vec![40, 40, 33]);
}
