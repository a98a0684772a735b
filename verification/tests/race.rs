use blitzmd::race::can_fastpath_with_current_providers;
use blitzmd::race::should_retry_search;
use blitzmd::race::Provider;
use blitzmd::race::ProviderAnswer;
use blitzmd::race::ProviderMetric;
use blitzmd::race::ProviderRace;
use blitzmd::race::SearchTelemetry;
use blitzmd::results::SearchResult;

#[test]
fn fastpath_requires_duckduckgo_or_all_done() {
    let metrics = vec![ProviderMetric {
        name: "bing-rss".to_string(),
        elapsed_ms: 120,
        result_count: 8,
        status: "ok".to_string(),
    }];

    assert!(!can_fastpath_with_current_providers(&metrics, false, true));
    assert!(can_fastpath_with_current_providers(&metrics, true, true));

    let metrics_with_ddg = vec![
        ProviderMetric {
            name: "bing-rss".to_string(),
            elapsed_ms: 120,
            result_count: 8,
            status: "ok".to_string(),
        },
        ProviderMetric {
            name: "duckduckgo".to_string(),
            elapsed_ms: 300,
            result_count: 8,
            status: "ok".to_string(),
        },
    ];
    assert!(can_fastpath_with_current_providers(
        &metrics_with_ddg,
        true,
        false
    ));
}

#[test]
fn search_retry_triggers_when_all_providers_fail() {
    let telemetry = SearchTelemetry {
        total_elapsed_ms: 900,
        merge_elapsed_ms: 0,
        total_candidates: 0,
        unique_results: 0,
        providers: vec![
            ProviderMetric {
                name: "duckduckgo".to_string(),
                elapsed_ms: 900,
                result_count: 0,
                status: "timeout@900ms".to_string(),
            },
            ProviderMetric {
                name: "bing-rss".to_string(),
                elapsed_ms: 900,
                result_count: 0,
                status: "error: boom".to_string(),
            },
        ],
    };

    assert!(should_retry_search(&telemetry));
}

fn result(title: &str, url: &str) -> SearchResult {
    SearchResult {
        title: title.to_string(),
        url: url.to_string(),
        snippet: String::new(),
        source: "test".to_string(),
    }
}

fn statuses(race: &ProviderRace) -> Vec<String> {
    race.metrics.iter().map(|m| format!("{} {} {} {}", m.name, m.status, m.elapsed_ms, m.result_count)).collect()
}

#[test]
fn the_preferred_provider_ends_the_race_early() {
    let mut race = ProviderRace::new(1, 900);
    assert!(!race.is_over());
    race.answered(Provider::DuckDuckGo, ProviderAnswer::Results(vec![result("a", "https://a.example")]), 30);
    assert!(race.is_over());
    race.close(31, 32);
    assert_eq!(statuses(&race), vec!["duckduckgo ok 30 1", "bing-rss skipped-fastpath 32 0"]);
    let results = race.merge();
    let run = race.finish(results, 2, 40);
    assert_eq!(run.results.len(), 1);
    assert_eq!(run.telemetry.total_candidates, 1);
    assert_eq!(run.telemetry.unique_results, 1);
    assert_eq!((run.telemetry.merge_elapsed_ms, run.telemetry.total_elapsed_ms), (2, 40));
}

#[test]
fn the_other_provider_does_not() {
    let mut race = ProviderRace::new(1, 900);
    race.answered(Provider::BingRss, ProviderAnswer::Results(vec![result("a", "https://a.example")]), 30);
    assert!(!race.is_over());
    race.answered(Provider::DuckDuckGo, ProviderAnswer::TimedOut, 900);
    assert!(race.is_over());
    race.close(1, 2);
    assert_eq!(statuses(&race), vec!["bing-rss ok 30 1", "duckduckgo timeout@900ms 900 0"]);
}

#[test]
fn too_few_results_are_waited_on() {
    let mut race = ProviderRace::new(2, 900);
    race.answered(Provider::DuckDuckGo, ProviderAnswer::Results(vec![result("a", "https://a.example")]), 30);
    assert!(!race.is_over());
    race.answered(Provider::BingRss, ProviderAnswer::Failed("boom".to_string()), 40);
    assert!(race.is_over());
    assert_eq!(statuses(&race), vec!["duckduckgo ok 30 1", "bing-rss error: boom 40 0"]);
}

#[test]
fn answers_without_results_are_empty() {
    let mut race = ProviderRace::new(2, 900);
    race.answered(Provider::DuckDuckGo, ProviderAnswer::Results(vec![]), 30);
    race.answered(Provider::BingRss, ProviderAnswer::Results(vec![]), 40);
    assert_eq!(statuses(&race), vec!["duckduckgo empty 30 0", "bing-rss empty 40 0"]);
    let results = race.merge();
    let run = race.finish(results, 0, 50);
    assert!(should_retry_search(&run.telemetry));
}

#[test]
fn a_race_merges_what_the_providers_found() {
    let mut race = ProviderRace::new(5, 900);
    race.answered(
        Provider::BingRss,
        ProviderAnswer::Results(vec![result("b1", "https://b.example"), result("b2", "https://a.example/#x")]),
        10,
    );
    race.answered(
        Provider::DuckDuckGo,
        ProviderAnswer::Results(vec![result("d1", "https://a.example")]),
        20,
    );
    let results = race.merge();
    let run = race.finish(results, 0, 50);
    let titles: Vec<&str> = run.results.iter().map(|r| r.title.as_str()).collect();
    assert_eq!(titles, vec!["b1", "d1"]);
    assert_eq!((run.telemetry.total_candidates, run.telemetry.unique_results), (3, 2));
}

#[test]
fn a_search_that_found_results_is_not_retried() {
    let metric = |status: &str| ProviderMetric {
        name: "bing-rss".to_string(),
        elapsed_ms: 1,
        result_count: 0,
        status: status.to_string(),
    };
    let telemetry = |unique_results: usize, providers: Vec<ProviderMetric>| SearchTelemetry {
        total_elapsed_ms: 1,
        merge_elapsed_ms: 0,
        total_candidates: 0,
        unique_results,
        providers,
    };
    assert!(!should_retry_search(&telemetry(1, vec![metric("empty")])));
    assert!(!should_retry_search(&telemetry(0, vec![])));
    assert!(!should_retry_search(&telemetry(0, vec![metric("empty"), metric("ok")])));
    assert!(should_retry_search(&telemetry(0, vec![metric("empty")])));
}
