use blitzmd::deep::DeepResult;
use blitzmd::deep::DeepTelemetry;
use blitzmd::command::Audience;
use blitzmd::command::SearchOptions;
use blitzmd::flow::Phase;
use blitzmd::flow::SearchAction;
use blitzmd::race::Provider;
use blitzmd::race::ProviderAnswer;
use blitzmd::race::ProviderMetric;
use blitzmd::race::SearchTelemetry;
use blitzmd::report::announce;
use blitzmd::report::announce_discovery;
use blitzmd::report::llm_search_output;
use blitzmd::report::plain_search_output;
use blitzmd::report::provider_warning;
use blitzmd::report::search_output;
use blitzmd::report::search_verbose_output;
use blitzmd::results::SearchResult;

fn results() -> Vec<SearchResult> {
    vec![
        SearchResult {
            title: "A".to_string(),
            url: "https://a.example".to_string(),
            snippet: "first".to_string(),
            source: "duckduckgo".to_string(),
        },
        SearchResult {
            title: "B".to_string(),
            url: "https://b.example".to_string(),
            snippet: String::new(),
            source: "bing-rss".to_string(),
        },
    ]
}

fn pages() -> Vec<DeepResult> {
    vec![
        DeepResult {
            title: "A".to_string(),
            url: "https://a.example".to_string(),
            elapsed_ms: 11,
            markdown_excerpt: Some("one\r\ntwo\n\nthree\r".to_string()),
            error: None,
        },
        DeepResult {
            title: "B".to_string(),
            url: "https://b.example".to_string(),
            elapsed_ms: 12,
            markdown_excerpt: None,
            error: Some("HTTP error: 500".to_string()),
        },
        DeepResult {
            title: "C".to_string(),
            url: "https://c.example".to_string(),
            elapsed_ms: 13,
            markdown_excerpt: None,
            error: None,
        },
    ]
}

fn telemetry() -> SearchTelemetry {
    SearchTelemetry {
        total_elapsed_ms: 120,
        merge_elapsed_ms: 1,
        total_candidates: 16,
        unique_results: 2,
        providers: vec![
            ProviderMetric {
                name: "duckduckgo".to_string(),
                elapsed_ms: 100,
                result_count: 8,
                status: "ok".to_string(),
            },
            ProviderMetric {
                name: "bing-rss".to_string(),
                elapsed_ms: 101,
                result_count: 0,
                status: "skipped-fastpath".to_string(),
            },
        ],
    }
}

fn deep_telemetry() -> DeepTelemetry {
    DeepTelemetry {
        requested: 3,
        completed: 3,
        succeeded: 2,
        failed: 1,
        total_elapsed_ms: 40,
        average_elapsed_ms: 12,
    }
}

#[test]
fn a_language_model_gets_sections() {
    let text = llm_search_output("q", &results(), &Some(pages()), &telemetry(), &Some(deep_telemetry()));
    assert_eq!(
        text,
        "# Search Results\nQuery: q\nReturned: 2\nSearch time: 120 ms\n\n\
         ## Result 1\nTitle: A\nURL: https://a.example\nSource: duckduckgo\nSnippet: first\n\n\
         ## Result 2\nTitle: B\nURL: https://b.example\nSource: bing-rss\n\n\
         # Deep Excerpts\n\n\
         ## Page 1\nTitle: A\nURL: https://a.example\nElapsed: 11 ms\nExcerpt:\none\r\ntwo\n\nthree\r\n\n\
         ## Page 2\nTitle: B\nURL: https://b.example\nElapsed: 12 ms\nError: HTTP error: 500\n\n\
         ## Page 3\nTitle: C\nURL: https://c.example\nElapsed: 13 ms\n\n\
         # Telemetry\nCandidates: 16\nUnique results: 2\nMerge time: 1 ms\n\
         Provider: duckduckgo | status=ok | 100 ms | 8 results\n\
         Provider: bing-rss | status=skipped-fastpath | 101 ms | 0 results\n\
         Deep fetch: 3 pages | ok=2 | failed=1 | total=40 ms | avg=12 ms/page\n"
    );
    let text = llm_search_output("q", &vec![], &None, &telemetry(), &None);
    assert!(text.ends_with("101 ms | 0 results\n") && text.contains("Returned: 0\n"));
}

#[test]
fn a_person_gets_a_list() {
    let text = plain_search_output("q", &results(), &Some(pages()));
    assert_eq!(
        text,
        "Query: q\nResults: 2\n\n\
         1. A\n   https://a.example\n   first\n   source: duckduckgo\n\n\
         2. B\n   https://b.example\n   source: bing-rss\n\n\
         Deep fetch (3 pages):\n\n\
         - A\n  https://a.example\n  took: 11 ms\n  excerpt:\n    one\n    two\n    \n    three\r\n\n\
         - B\n  https://b.example\n  took: 12 ms\n  error: HTTP error: 500\n\n\
         - C\n  https://c.example\n  took: 13 ms\n\n"
    );
    assert_eq!(plain_search_output("q", &vec![], &None), "Query: q\nResults: 0\n\n");
}

#[test]
fn excerpts_show_the_lines_of_the_standard_library() {
    for excerpt in ["", "\n", "\r\n", "a", "a\n", "a\r", "a\r\r\nb", "\n\na\n\n", &"x\n".repeat(30)] {
        let mut page = pages().remove(0);
        page.markdown_excerpt = Some(excerpt.to_string());
        let shown: String = excerpt.lines().take(20).map(|l| format!("    {l}\n")).collect();
        let text = plain_search_output("q", &vec![], &Some(vec![page]));
        assert!(text.ends_with(&format!("  excerpt:\n{shown}\n")), "{excerpt:?}: {text:?}");
    }
}

#[test]
fn a_search_tells_how_it_fared() {
    let text = search_verbose_output(&telemetry(), &Some(deep_telemetry()), "16.67", "75.00");
    assert_eq!(
        text,
        "[perf] merged results   : 2 unique from 16 candidates\n\
         [perf] search throughput: 16.67 results/s\n\
         [timing] merge          : 1 ms\n\
         [verbose] provider      : duckduckgo | status=ok | 100 ms | 8 results\n\
         [verbose] provider      : bing-rss | status=skipped-fastpath | 101 ms | 0 results\n\
         [perf] deep throughput  : 75.00 pages/s\n\
         [timing] deep total     : 40 ms (avg 12 ms/page, ok=2, failed=1)\n"
    );
    assert!(search_verbose_output(&telemetry(), &None, "16.67", "").ends_with("101 ms | 0 results\n"));
}

#[test]
fn a_program_gets_everything() {
    let output = search_output("q".to_string(), 130, results(), Some(pages()), telemetry(), None);
    assert_eq!((output.query.as_str(), output.took_ms, output.result_count), ("q", 130, 2));
    assert_eq!(output.results.len(), 2);
    assert_eq!(output.deep_results.map(|d| d.len()), Some(3));
    assert_eq!(output.telemetry.map(|t| t.total_candidates), Some(16));
    assert!(output.deep_telemetry.is_none());
}

#[test]
fn json_comes_before_everything() {
    let options = |json: bool, llm: bool| SearchOptions {
        query: String::new(),
        limit: 1,
        timeout_ms: 1,
        json,
        llm,
        deep: false,
        deep_limit: 1,
        verbose: false,
    };
    assert_eq!(options(true, true).audience(), Audience::Program);
    assert_eq!(options(true, false).audience(), Audience::Program);
    assert_eq!(options(false, true).audience(), Audience::LanguageModel);
    assert_eq!(options(false, false).clone().audience(), Audience::Person);
}

#[test]
fn a_search_says_what_it_tries() {
    let again = SearchAction::Search { timeout_ms: 2500 };
    assert_eq!(
        announce(Phase::Widened, &again).as_deref(),
        Some("[info] search fallback   : retrying with a wider timeout (2500 ms)")
    );
    assert_eq!(
        announce(Phase::Repeated, &again).as_deref(),
        Some("[warn] relevance filter : provider results look off-topic, retrying (2500 ms)")
    );
    assert_eq!(announce(Phase::First, &again), None);
    assert_eq!(
        announce(Phase::Targeted, &SearchAction::Ask { query: "\"a b\"".to_string() }).as_deref(),
        Some("[info] relevance rescue : trying targeted DuckDuckGo query \"a b\"")
    );
    assert_eq!(announce(Phase::Discovery, &SearchAction::Discover), None);
    assert_eq!(announce_discovery(0), None);
    assert_eq!(
        announce_discovery(2).as_deref(),
        Some("[info] relevance rescue : discovered 2 candidate domain result(s)")
    );
}

#[test]
fn a_search_warns_of_providers() {
    assert_eq!(
        provider_warning(Provider::DuckDuckGo, &ProviderAnswer::Failed("boom".to_string()), 900).as_deref(),
        Some("[warn] provider duckduckgo failed: boom")
    );
    assert_eq!(
        provider_warning(Provider::BingRss, &ProviderAnswer::TimedOut, 900).as_deref(),
        Some("[warn] provider bing-rss timed out after 900ms")
    );
    assert_eq!(provider_warning(Provider::BingRss, &ProviderAnswer::Results(vec![]), 900), None);
}
