use pyroxene::rank::rank;
use pyroxene::rank::rank_capped;

fn similarity(name: &str, query: &str) -> u64 {
    (strsim::jaro_winkler(name, query) * u64::MAX as f64).floor() as u64
}

fn scores_for(names: &[&str], query: &str) -> Vec<u64> {
    names.iter().map(|n| similarity(n, query)).collect()
}

#[test]
fn prefix_match_outranks_unrelated_name() {
    let names = ["Firefox", "Files", "Terminal"];
    let order = rank(&scores_for(&names, "fire"));
    let pos_firefox = order.iter().position(|&i| i == 0).unwrap();
    let pos_terminal = order.iter().position(|&i| i == 2).unwrap();
    assert!(pos_firefox < pos_terminal);
    assert_eq!(order[0], 0);
}

#[test]
fn ranking_is_deterministic() {
    let names = ["Firefox", "Files", "Terminal", "Editor", "Files"];
    let scores = scores_for(&names, "fil");
    let first = rank(&scores);
    let second = rank(&scores);
    assert_eq!(first, second);
}

#[test]
fn ranking_orders_scores_descending() {
    let order = rank(&vec![10u64, 30u64, 20u64]);
    assert_eq!(order, vec![1, 2, 0]);
}

#[test]
fn equal_scores_keep_store_order() {
    let order = rank(&vec![5u64, 9u64, 5u64, 5u64]);
    assert_eq!(order, vec![1, 0, 2, 3]);
}

#[test]
fn truncation_preserves_prefix_order() {
    let names = ["Firefox", "Files", "Terminal", "Editor", "Browser"];
    let scores = scores_for(&names, "fire");
    let full = rank(&scores);
    let capped = rank_capped(&scores, 3);
    assert_eq!(capped.len(), 3);
    assert_eq!(&full[..3], &capped[..]);
}

#[test]
fn cap_larger_than_store_returns_everything() {
    let scores = vec![1u64, 2u64];
    let capped = rank_capped(&scores, 34);
    assert_eq!(capped, rank(&scores));
    assert_eq!(capped.len(), 2);
}

#[test]
fn ranking_empty_store_is_empty() {
    let scores: Vec<u64> = Vec::new();
    assert!(rank(&scores).is_empty());
    assert!(rank_capped(&scores, 34).is_empty());
}
