use blitzmd::flow::Phase;
use blitzmd::flow::SearchAction;
use blitzmd::flow::SearchFlow;
use blitzmd::race::ProviderMetric;
use blitzmd::race::SearchRun;
use blitzmd::race::SearchTelemetry;
use blitzmd::results::SearchResult;

fn result(title: &str) -> SearchResult {
    SearchResult {
        title: title.to_string(),
        url: format!("https://{}.example", title.replace(' ', "-")),
        snippet: String::new(),
        source: "test".to_string(),
    }
}

fn run(results: Vec<SearchResult>, status: &str, total_elapsed_ms: u128) -> SearchRun {
    let unique_results = results.len();
    SearchRun {
        results,
        telemetry: SearchTelemetry {
            total_elapsed_ms,
            merge_elapsed_ms: 0,
            total_candidates: unique_results,
            unique_results,
            providers: vec![ProviderMetric {
                name: "duckduckgo".to_string(),
                elapsed_ms: 1,
                result_count: unique_results,
                status: status.to_string(),
            }],
        },
    }
}

fn finished(action: SearchAction) -> (Vec<String>, u128) {
    match action {
        SearchAction::Finish { results, telemetry } => {
            (results.into_iter().map(|r| r.title).collect(), telemetry.total_elapsed_ms)
        }
        other => panic!("{other:?}"),
    }
}

#[test]
fn relevant_results_end_a_search() {
    let (mut flow, action) = SearchFlow::start("alpha beta", 1, 900);
    assert!(matches!(action, SearchAction::Search { timeout_ms: 900 }));
    let action = flow.searched(run(vec![result("alpha"), result("alpha beta"), result("beta alpha")], "ok", 7));
    assert_eq!(finished(action), (vec!["alpha beta".to_string()], 7));
    assert_eq!(flow.phase, Phase::Over);
}

#[test]
fn failing_providers_get_more_time_once() {
    let (mut flow, _) = SearchFlow::start("alpha", 5, 900);
    let action = flow.searched(run(vec![], "timeout@900ms", 1));
    assert!(matches!(action, SearchAction::Search { timeout_ms: 2500 }));
    assert_eq!(flow.phase, Phase::Widened);
    match flow.searched(run(vec![], "timeout@2500ms", 2)) {
        SearchAction::Fail(error) => {
            assert_eq!(error.message(), "No search results returned for query: alpha");
        }
        other => panic!("{other:?}"),
    }
}

#[test]
fn a_longer_timeout_is_kept() {
    let (mut flow, _) = SearchFlow::start("alpha", 5, 9000);
    let action = flow.searched(run(vec![], "error: boom", 1));
    assert!(matches!(action, SearchAction::Search { timeout_ms: 9000 }));
    let action = flow.searched(run(vec![result("alpha")], "ok", 2));
    assert_eq!(finished(action), (vec!["alpha".to_string()], 2));
}

#[test]
fn no_results_from_a_provider_that_answered_fail_at_once() {
    let (mut flow, _) = SearchFlow::start("alpha", 5, 900);
    match flow.searched(run(vec![], "ok", 1)) {
        SearchAction::Fail(error) => {
            assert_eq!(error.message(), "No search results returned for query: alpha");
        }
        other => panic!("{other:?}"),
    }
}

fn off_topic(query: &str) -> SearchFlow {
    let (mut flow, _) = SearchFlow::start(query, 2, 900);
    let action = flow.searched(run(vec![result("gamma")], "ok", 1));
    assert!(matches!(action, SearchAction::Search { timeout_ms: 2500 }));
    assert_eq!(flow.phase, Phase::Repeated);
    flow
}

#[test]
fn off_topic_results_are_searched_for_again() {
    let mut flow = off_topic("alpha");
    let action = flow.searched(run(vec![result("alpha")], "ok", 2));
    assert_eq!(finished(action), (vec!["alpha".to_string()], 2));
}

fn targeted(query: &str) -> SearchFlow {
    let mut flow = off_topic(query);
    match flow.searched(run(vec![], "empty", 2)) {
        SearchAction::Ask { query: asked } => assert_eq!(asked, format!("\"{query}\"")),
        other => panic!("{other:?}"),
    }
    assert_eq!(flow.phase, Phase::Targeted);
    flow
}

#[test]
fn the_quoted_query_rescues_a_search() {
    let mut flow = targeted("alpha");
    let action = flow.asked(Some(vec![result("beta"), result("alpha")]));
    assert_eq!(finished(action), (vec!["alpha".to_string()], 1));
}

#[test]
fn domains_rescue_a_search() {
    for answer in [None, Some(vec![]), Some(vec![result("beta")])] {
        let mut flow = targeted("alpha");
        assert!(matches!(flow.asked(answer), SearchAction::Discover));
        assert_eq!(flow.phase, Phase::Discovery);
        let action = flow.discovered(vec![result("one"), result("two"), result("three")]);
        assert_eq!(finished(action), (vec!["one".to_string(), "two".to_string()], 1));
    }
}

#[test]
fn a_search_may_find_nothing_relevant() {
    let mut flow = targeted("alpha");
    flow.asked(None);
    match flow.discovered(vec![]) {
        SearchAction::Fail(error) => {
            assert_eq!(error.message(), "No relevant search results returned for query: alpha");
        }
        other => panic!("{other:?}"),
    }
    assert_eq!(flow.phase, Phase::Over);
}

#[test]
fn shown_results_differ_where_those_found_do() {
    let (mut flow, _) = SearchFlow::start("alpha", 5, 900);
    let (titles, _) = finished(flow.searched(run(vec![result("alpha a"), result("x"), result("alpha b")], "ok", 1)));
    assert_eq!(titles, vec!["alpha a", "alpha b"]);
}
