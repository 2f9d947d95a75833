use sokoban::stats::{sort_names, summarize, CollectionStats, StatsSummary};

fn stats(name: &str, total: usize, solved: usize) -> CollectionStats {
    CollectionStats {
        short_name: name.to_string(),
        name: name.to_uppercase(),
        total_levels: total,
        solved_levels: solved,
    }
}

#[test]
fn names_are_sorted_naturally() {
    let names: Vec<String> = ["rfc2086", "rfc822", "rfc1", "original", "microban10", "microban9"]
        .iter()
        .map(|s| s.to_string())
        .collect();
    let sorted = sort_names(&names);
    assert_eq!(sorted, vec!["microban9", "microban10", "original", "rfc1", "rfc822", "rfc2086"]);
}

#[test]
fn sorting_keeps_equal_names_and_empty_lists() {
    let names: Vec<String> = vec!["b".to_string(), "a".to_string(), "b".to_string()];
    assert_eq!(sort_names(&names), vec!["a", "b", "b"]);
    assert_eq!(sort_names(&vec![]).len(), 0);
}

#[test]
fn summary_counts_collections_and_levels() {
    let all = vec![stats("a", 10, 10), stats("b", 5, 2), stats("c", 7, 0), stats("d", 0, 0)];
    assert!(all[0].solved());
    assert!(all[1].started());
    assert!(!all[2].started());
    let s = summarize(&all);
    assert_eq!(
        s,
        StatsSummary {
            collections: 4,
            levels: 22,
            finished_collections: 2,
            finished_levels: 12,
            started_collections: 1,
        }
    );
}
