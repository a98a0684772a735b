use blitzmd::results::has_enough_unique_results;
use blitzmd::results::merge_results_round_robin;
use blitzmd::results::SearchResult;

#[test]
fn merge_results_deduplicates_canonical_urls() {
    let a = SearchResult {
        title: "A".to_string(),
        url: "https://example.com/".to_string(),
        snippet: String::new(),
        source: "one".to_string(),
    };
    let b = SearchResult {
        title: "B".to_string(),
        url: "https://example.com#section".to_string(),
        snippet: String::new(),
        source: "two".to_string(),
    };
    let c = SearchResult {
        title: "C".to_string(),
        url: "https://example.org".to_string(),
        snippet: String::new(),
        source: "one".to_string(),
    };

    let merged = merge_results_round_robin(vec![vec![a, c.clone()], vec![b]], 10);
    assert_eq!(merged.len(), 2);
    assert_eq!(merged[0].url, "https://example.com/");
    assert_eq!(merged[1].url, c.url);
}

#[test]
fn has_enough_unique_results_detects_limit() {
    let g1 = vec![
        SearchResult {
            title: "A".to_string(),
            url: "https://example.com/a".to_string(),
            snippet: String::new(),
            source: "one".to_string(),
        },
        SearchResult {
            title: "B".to_string(),
            url: "https://example.com/b".to_string(),
            snippet: String::new(),
            source: "one".to_string(),
        },
    ];
    let groups = vec![g1];
    assert!(has_enough_unique_results(&groups, 2));
}

fn result(title: &str, url: &str) -> SearchResult {
    SearchResult {
        title: title.to_string(),
        url: url.to_string(),
        snippet: String::new(),
        source: "test".to_string(),
    }
}

fn titles(results: &[SearchResult]) -> Vec<&str> {
    results.iter().map(|r| r.title.as_str()).collect()
}

fn groups() -> Vec<Vec<SearchResult>> {
    vec![
        vec![result("a1", "https://a.example/1"), result("a2", "https://a.example/2"), result("a3", "https://a.example/3")],
        vec![],
        vec![result("b1", "https://a.example/2#x"), result("b2", "https://b.example")],
    ]
}

#[test]
fn results_are_taken_in_turn() {
    assert_eq!(titles(&merge_results_round_robin(groups(), 10)), vec!["a1", "b1", "b2", "a3"]);
    assert_eq!(titles(&merge_results_round_robin(groups(), 3)), vec!["a1", "b1", "b2"]);
    assert_eq!(titles(&merge_results_round_robin(groups(), 4)), vec!["a1", "b1", "b2", "a3"]);
    assert!(merge_results_round_robin(groups(), 0).is_empty());
    assert!(merge_results_round_robin(vec![], 5).is_empty());
}

#[test]
fn merging_what_was_merged_changes_nothing() {
    let once = merge_results_round_robin(groups(), 10);
    let expected = titles(&once).join(" ");
    assert_eq!(titles(&merge_results_round_robin(vec![once.clone()], 10)).join(" "), expected);
}

#[test]
fn duplicates_are_not_enough() {
    let twice = vec![vec![result("a", "https://a.example")], vec![result("b", "https://a.example/")]];
    assert!(!has_enough_unique_results(&twice, 2));
    assert!(has_enough_unique_results(&twice, 1));
    assert!(!has_enough_unique_results(&twice, 0));
    assert!(!has_enough_unique_results(&vec![], 1));
}
