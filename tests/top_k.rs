use wordle_solver::option_iter::OptionIter;
use wordle_solver::top_k::TopK;

fn drain<E>(mut t: TopK<E>) -> Vec<E> {
    let mut out = Vec::new();
    while let Some(e) = t.next() {
        out.push(e);
    }
    out
}

fn reference(scores: &[u64], k: usize) -> Vec<usize> {
    let mut idx: Vec<usize> = (0..scores.len()).collect();
    idx.sort_by(|a, b| scores[*b].cmp(&scores[*a]));
    idx.truncate(k);
    idx
}

#[test]
fn top_k_matches_sort_and_truncate() {
    let streams: Vec<Vec<u64>> = vec![
        vec![5, 1, 9, 3, 7, 9, 2, 8],
        vec![1, 1, 1, 1],
        vec![10, 9, 8, 7, 6, 5],
        vec![1, 2, 3, 4, 5, 6],
        vec![3, 7, 3, 7, 3, 7, 0],
        vec![],
    ];
    for scores in streams.iter() {
        for k in 0..=scores.len() + 2 {
            let entries: Vec<(usize, u64)> = scores.iter().copied().enumerate().collect();
            let got = drain(TopK::new(entries, k));
            assert_eq!(got, reference(scores, k), "scores={:?} k={}", scores, k);
            assert_eq!(got.len(), k.min(scores.len()));
        }
    }
}

#[test]
fn top_k_ties_keep_first_seen() {
    let entries = vec![("a", 4u64), ("b", 6), ("c", 4), ("d", 6), ("e", 4)];
    let got = drain(TopK::new(entries, 3));
    assert_eq!(got, vec!["b", "d", "a"]);
}

#[test]
fn top_k_size_hint_counts_down() {
    let mut t = TopK::new(vec![(1u8, 3u64), (2, 2), (3, 1)], 2);
    assert_eq!(t.size_hint(), (2, Some(2)));
    assert_eq!(t.next(), Some(1));
    assert_eq!(t.size_hint(), (1, Some(1)));
    assert_eq!(t.next(), Some(2));
    assert_eq!(t.next(), None);
    assert_eq!(t.next(), None);
}

#[test]
fn option_iter_stops_at_first_none() {
    let mut it = OptionIter::new(vec![Some(1), Some(2), None, Some(4)]);
    assert_eq!(it.next(), Some(1));
    assert_eq!(it.next(), Some(2));
    assert_eq!(it.next(), None);
    assert_eq!(it.next(), None);
    let mut it = OptionIter::new(vec![None, Some(1)]);
    assert_eq!(it.next(), None::<i32>);
    let it = OptionIter::new(vec![Some(1), Some(2)]);
    assert_eq!(it.size_hint(), (0, Some(2)));
}
