use blitzmd::urls::bing_rss_endpoint;
use blitzmd::urls::canonicalize_for_dedupe;
use blitzmd::urls::duckduckgo_endpoint;
use blitzmd::urls::duckduckgo_lite_endpoint;
use blitzmd::urls::is_plausible_external_result_url;
use blitzmd::urls::normalize_duckduckgo_url;
use blitzmd::urls::quoted;
use blitzmd::urls::resolve_url;

#[test]
fn normalize_duckduckgo_url_decodes_redirect_target() {
    let href = "/l/?uddg=https%3A%2F%2Fexample.com%2Farticle%3Fa%3D1";
    let decoded = normalize_duckduckgo_url(href);
    assert_eq!(decoded, "https://example.com/article?a=1");
}

#[test]
fn normalize_duckduckgo_url_decodes_absolute_redirect_target() {
    let href = "https://duckduckgo.com/l/?uddg=https%3A%2F%2Fexample.com%2Fdocs";
    let decoded = normalize_duckduckgo_url(href);
    assert_eq!(decoded, "https://example.com/docs");
}

#[test]
fn other_references_are_made_absolute() {
    assert_eq!(normalize_duckduckgo_url("//example.com/a"), "https://example.com/a");
    assert_eq!(normalize_duckduckgo_url("http://example.com/"), "http://example.com/");
    assert_eq!(normalize_duckduckgo_url("/about"), "https://duckduckgo.com/about");
    assert_eq!(normalize_duckduckgo_url("/l/?kh=-1"), "https://duckduckgo.com/l/?kh=-1");
    assert_eq!(
        normalize_duckduckgo_url("http://duckduckgo.com/l/?x=1&uddg=a%20b&uddg=c"),
        "a b"
    );
    assert_eq!(normalize_duckduckgo_url(""), "https://duckduckgo.com");
}

#[test]
fn addresses_of_one_page_have_one_key() {
    let key = "https://example.com";
    for url in [
        "https://example.com",
        "https://example.com/",
        "https://example.com:443/",
        "https://EXAMPLE.com#top",
        " https://example.com/#a#b ",
    ] {
        assert_eq!(canonicalize_for_dedupe(url), key, "{url}");
    }
    assert_eq!(canonicalize_for_dedupe("http://example.com:80/a/"), "http://example.com/a");
    assert_eq!(canonicalize_for_dedupe("http://example.com:443/"), "http://example.com:443");
    assert_eq!(canonicalize_for_dedupe("https://example.com/?q=/"), "https://example.com/?q=/");
    assert_eq!(canonicalize_for_dedupe("ftp://example.com/"), "ftp://example.com");
    assert_eq!(canonicalize_for_dedupe("  Not A URL "), "not a url");
    assert_eq!(canonicalize_for_dedupe("ÉTÉ"), "été");
}

#[test]
fn keys_of_urls_have_no_fragment() {
    for url in ["https://a.example/#x", "mailto:a@b#c", "http://a.example/?q#x", "data:text/plain,a#b"] {
        assert!(!canonicalize_for_dedupe(url).contains('#'), "{url}");
    }
}

#[test]
fn results_lead_outside_the_search_engine() {
    assert!(is_plausible_external_result_url("https://example.com/"));
    assert!(is_plausible_external_result_url("http://sub.duckduckgo.com/"));
    for url in [
        "https://duckduckgo.com/about",
        "https://HTML.duckduckgo.com/",
        "http://duck.co",
        "ftp://example.com/",
        "javascript:void(0)",
        "https://",
        "http://[",
        "",
    ] {
        assert!(!is_plausible_external_result_url(url), "{url}");
    }
}

#[test]
fn references_are_resolved_against_their_page() {
    let base = "https://example.com/docs/index.html";
    assert_eq!(resolve_url(base, "a.html"), "https://example.com/docs/a.html");
    assert_eq!(resolve_url(base, "/x"), "https://example.com/x");
    assert_eq!(resolve_url(base, "../y?z#w"), "https://example.com/y?z#w");
    assert_eq!(resolve_url(base, "//cdn.example/p"), "https://cdn.example/p");
    assert_eq!(resolve_url("http://a.example", "//b.example"), "http://b.example");
    assert_eq!(resolve_url("nowhere", "//b.example"), "https://b.example");
    assert_eq!(resolve_url("nowhere", "a"), "a");
    assert_eq!(resolve_url(base, "http://["), "http://[");
    assert_eq!(resolve_url(base, "mailto:x@y"), "mailto:x@y");
}

#[test]
fn queries_are_encoded() {
    assert_eq!(
        duckduckgo_endpoint("rust async & é"),
        "https://html.duckduckgo.com/html/?q=rust%20async%20%26%20%C3%A9"
    );
    assert_eq!(duckduckgo_lite_endpoint("a-b_c.d~e"), "https://lite.duckduckgo.com/lite/?q=a-b_c.d~e");
    assert_eq!(
        bing_rss_endpoint("\"x\"/?#%+"),
        "https://www.bing.com/search?format=rss&q=%22x%22%2F%3F%23%25%2B"
    );
    assert_eq!(quoted("a b"), "\"a b\"");
    let every: String = (0..128u8).map(|b| b as char).collect();
    let encoded = bing_rss_endpoint(&every);
    let tail = &encoded["https://www.bing.com/search?format=rss&q=".len()..];
    assert!(tail.chars().all(|c| c.is_ascii_alphanumeric() || "-._~%".contains(c)));
}

#[test]
fn different_queries_have_different_addresses() {
    assert_ne!(duckduckgo_endpoint("a b"), duckduckgo_endpoint("a%20b"));
    assert_ne!(duckduckgo_endpoint("a"), duckduckgo_endpoint("A"));
}
