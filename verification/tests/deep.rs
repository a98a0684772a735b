use blitzmd::deep::add_discovered;
use blitzmd::deep::candidate_domains;
use blitzmd::deep::compute_deep_telemetry;
use blitzmd::deep::deep_count;
use blitzmd::deep::deep_result;
use blitzmd::deep::probe_domain;
use blitzmd::deep::DeepResult;
use blitzmd::deep::DomainProbe;
use blitzmd::results::SearchResult;

fn result(title: &str) -> SearchResult {
    SearchResult {
        title: title.to_string(),
        url: "https://example.com".to_string(),
        snippet: "s".to_string(),
        source: "test".to_string(),
    }
}

#[test]
fn a_page_gives_an_excerpt_or_an_error() {
    let page = deep_result(result("a"), 12, Ok(format!("  {}", "é".repeat(2000))));
    assert_eq!((page.title.as_str(), page.url.as_str(), page.elapsed_ms), ("a", "https://example.com", 12));
    assert_eq!(page.markdown_excerpt, Some("é".repeat(1099)));
    assert_eq!(page.error, None);
    let page = deep_result(result("a"), 12, Err("HTTP error: 404 Not Found".to_string()));
    assert_eq!(page.markdown_excerpt, None);
    assert_eq!(page.error, Some("HTTP error: 404 Not Found".to_string()));
}

#[test]
fn no_more_pages_than_results() {
    assert_eq!((deep_count(3, 8), deep_count(3, 2), deep_count(3, 3)), (3, 2, 3));
}

#[test]
fn deep_telemetry_counts_and_averages() {
    let page = |elapsed_ms: u128, error: Option<&str>| DeepResult {
        title: String::new(),
        url: String::new(),
        elapsed_ms,
        markdown_excerpt: None,
        error: error.map(|e| e.to_string()),
    };
    let t = compute_deep_telemetry(&vec![page(10, None), page(21, Some("x")), page(30, None)], 35);
    assert_eq!((t.requested, t.completed, t.succeeded, t.failed), (3, 3, 2, 1));
    assert_eq!((t.total_elapsed_ms, t.average_elapsed_ms), (35, 20));
    let t = compute_deep_telemetry(&vec![], 5);
    assert_eq!((t.completed, t.succeeded, t.failed, t.average_elapsed_ms, t.total_elapsed_ms), (0, 0, 0, 0, 5));
}

#[test]
fn a_query_suggests_domains() {
    let hosts: Vec<String> = candidate_domains("\"Athenox\" development").into_iter().map(|d| d.host).collect();
    assert_eq!(hosts, vec!["athenox.dev", "athenox.com", "athenox.io", "athenox.fr"]);
    assert_eq!(candidate_domains("Athenox")[2].url, "https://athenox.io/");
    assert!(candidate_domains("abc defg").is_empty());
    assert!(candidate_domains("a b").is_empty());
    assert_eq!(candidate_domains("éé").len(), 4);
}

#[test]
fn a_domain_must_mention_its_term() {
    let domain = &candidate_domains("Athenox")[0];
    match probe_domain(domain, "<TITLE> Athenox\n Development </TITLE>") {
        DomainProbe::Found(r) => {
            assert_eq!(r.title, "Athenox Development");
            assert_eq!(r.url, "https://athenox.dev/");
            assert_eq!(r.snippet, "Discovered via domain fallback");
            assert_eq!(r.source, "heuristic-domain");
        }
        _ => panic!("expected a result"),
    }
    match probe_domain(domain, "ATHENOX without a title") {
        DomainProbe::Found(r) => assert_eq!(r.title, "athenox.dev"),
        _ => panic!("expected a result"),
    }
    assert!(matches!(probe_domain(domain, "<title>Parked</title>"), DomainProbe::OffTopic));
    assert!(matches!(probe_domain(domain, "İathenox<title>\u{e9}</title>"), DomainProbe::Misaligned));
}

#[test]
fn discovery_stops_when_there_are_enough() {
    let mut found = vec![];
    assert!(!add_discovered(&mut found, result("a"), 2));
    assert!(add_discovered(&mut found, result("b"), 2));
    assert_eq!(found.len(), 2);
}
