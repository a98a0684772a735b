use blitzmd::relevance::best_relevance_score;
use blitzmd::relevance::filter_and_rank_relevant_results;
use blitzmd::relevance::min_term_match_threshold;
use blitzmd::relevance::query_terms;
use blitzmd::relevance::relevance_score;
use blitzmd::results::SearchResult;

#[test]
fn relevance_filter_removes_off_topic_results() {
    let results = vec![
        SearchResult {
            title: "Google Maps Help".to_string(),
            url: "https://support.google.com/maps".to_string(),
            snippet: "Get started with Maps".to_string(),
            source: "bing-rss".to_string(),
        },
        SearchResult {
            title: "Athenox Development | Innovation".to_string(),
            url: "https://athenox.dev".to_string(),
            snippet: "Agence web Athenox Development".to_string(),
            source: "duckduckgo".to_string(),
        },
    ];

    let filtered = filter_and_rank_relevant_results(&results, "Athenox Development", 8);
    assert_eq!(filtered.len(), 1);
    assert!(filtered[0].title.contains("Athenox"));
}

#[test]
fn relevance_filter_returns_empty_when_nothing_matches() {
    let results = vec![SearchResult {
        title: "Visit Bologna".to_string(),
        url: "https://example.com/bologna".to_string(),
        snippet: "Travel guide".to_string(),
        source: "bing-rss".to_string(),
    }];

    let filtered = filter_and_rank_relevant_results(&results, "Athenox Development", 8);
    assert!(filtered.is_empty());
}

#[test]
fn query_terms_handles_quotes() {
    let terms = query_terms("\"Athenox Development\"");
    assert_eq!(terms, vec!["athenox".to_string(), "development".to_string()]);
}

#[test]
fn min_term_match_threshold_for_two_terms_requires_both() {
    assert_eq!(min_term_match_threshold(2), 2);
}

fn result(title: &str, url: &str, snippet: &str) -> SearchResult {
    SearchResult {
        title: title.to_string(),
        url: url.to_string(),
        snippet: snippet.to_string(),
        source: "test".to_string(),
    }
}

fn titles(results: &[SearchResult]) -> Vec<&str> {
    results.iter().map(|r| r.title.as_str()).collect()
}

#[test]
fn terms_are_the_cores_of_words() {
    assert_eq!(query_terms("(Rust) is fun! a-b --x-- C++ été ÀÇ"), vec!["rust", "fun", "a-b", "été", "àç"]);
    assert!(query_terms("a bc ?? --").is_empty());
    assert!(query_terms("").is_empty());
}

#[test]
fn thresholds() {
    let expected: Vec<usize> = vec![0, 1, 2, 2, 2];
    for (terms, least) in expected.iter().enumerate() {
        assert_eq!(min_term_match_threshold(terms), *least);
    }
}

#[test]
fn scores_count_terms_once_each() {
    let r = result("Rust rust", "https://ASYNC.example", "runtime");
    let terms: Vec<String> = ["rust", "async", "runtime", "tokio"].iter().map(|t| t.to_string()).collect();
    assert_eq!(relevance_score(&r, &terms), 3);
    assert_eq!(relevance_score(&r, &vec![]), 0);
}

#[test]
fn relevant_results_come_best_first_and_keep_their_order() {
    let results = vec![
        result("one alpha beta", "u1", ""),
        result("two alpha", "u2", "beta gamma"),
        result("three alpha beta", "u3", ""),
        result("four", "u4", "alpha"),
        result("five ALPHA Gamma beta", "u5", ""),
    ];
    let ranked = filter_and_rank_relevant_results(&results, "alpha beta gamma", 10);
    assert_eq!(titles(&ranked), vec!["two alpha", "five ALPHA Gamma beta", "one alpha beta", "three alpha beta"]);
    let fewer = filter_and_rank_relevant_results(&results, "alpha beta gamma", 3);
    assert_eq!(titles(&fewer), titles(&ranked)[..3].to_vec());
    assert!(filter_and_rank_relevant_results(&results, "alpha", 0).is_empty());
    assert!(filter_and_rank_relevant_results(&results, "a b", 5).is_empty());
}

#[test]
fn the_best_score_is_the_largest() {
    let results = vec![result("alpha", "u", ""), result("alpha beta", "u", "")];
    assert_eq!(best_relevance_score(&results, "alpha beta"), 2);
    assert_eq!(best_relevance_score(&results, "gamma"), 0);
    assert_eq!(best_relevance_score(&vec![], "alpha"), 0);
}

#[test]
fn filtering_again_changes_nothing() {
    let results = vec![
        result("alpha", "u1", ""),
        result("beta gamma", "u2", "alpha"),
        result("gamma", "u3", "alpha"),
        result("alpha beta gamma", "u4", ""),
        result("delta", "u5", ""),
    ];
    let all = filter_and_rank_relevant_results(&results, "alpha beta gamma", 9);
    assert_eq!(titles(&all), vec!["beta gamma", "alpha beta gamma", "gamma"]);
    for limit in 0..5 {
        let some = filter_and_rank_relevant_results(&results, "alpha beta gamma", limit);
        let again = filter_and_rank_relevant_results(&some, "alpha beta gamma", limit);
        assert_eq!(titles(&again), titles(&some));
        assert_eq!(titles(&some), titles(&all)[..limit.min(3)].to_vec());
    }
}

#[test]
fn there_are_relevant_results_where_the_best_is_good_enough() {
    let results = vec![result("alpha", "u1", ""), result("beta", "u2", "")];
    for query in ["alpha", "alpha beta", "gamma", "alpha gamma delta"] {
        let enough = best_relevance_score(&results, query) >= min_term_match_threshold(query_terms(query).len());
        assert_eq!(!filter_and_rank_relevant_results(&results, query, 1).is_empty(), enough, "{query}");
    }
}

#[test]
fn terms_of_queries_add_up() {
    let queries = ["", " ", "Rust async", "\"a\" b-c", "été ", "(x) yyy", "\""];
    for a in queries {
        assert_eq!(query_terms(&format!("\"{a}\"")), query_terms(a));
        for b in queries {
            let mut both = query_terms(a);
            both.extend(query_terms(b));
            assert_eq!(query_terms(&format!("{a} {b}")), both);
        }
    }
}
