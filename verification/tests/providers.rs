use blitzmd::providers::bing_answer_suffices;
use blitzmd::providers::choose_bing_answer;
use blitzmd::providers::parse_bing_rss;
use blitzmd::providers::parse_duckduckgo_html;
use blitzmd::providers::RssChannel;
use blitzmd::providers::RssFeed;
use blitzmd::providers::RssItem;
use blitzmd::results::SearchResult;

/// The feed as it is read from XML, with what is missing left empty.
struct FeedXml(RssFeed);
struct ChannelXml(RssChannel);
struct ItemXml(RssItem);

struct FeedVisitor;
struct ChannelVisitor;
struct ItemVisitor;

impl<'de> serde::de::Visitor<'de> for FeedVisitor {
    type Value = FeedXml;

    fn expecting(&self, f: &mut std::fmt::Formatter) -> std::fmt::Result {
        f.write_str("a feed")
    }

    fn visit_map<A: serde::de::MapAccess<'de>>(self, mut map: A) -> Result<FeedXml, A::Error> {
        let mut channel = RssChannel { item: Vec::new() };
        while let Some(key) = map.next_key::<String>()? {
            if key == "channel" {
                channel = map.next_value::<ChannelXml>()?.0;
            } else {
                map.next_value::<serde::de::IgnoredAny>()?;
            }
        }
        Ok(FeedXml(RssFeed { channel }))
    }
}

impl<'de> serde::de::Visitor<'de> for ChannelVisitor {
    type Value = ChannelXml;

    fn expecting(&self, f: &mut std::fmt::Formatter) -> std::fmt::Result {
        f.write_str("a channel")
    }

    fn visit_map<A: serde::de::MapAccess<'de>>(self, mut map: A) -> Result<ChannelXml, A::Error> {
        let mut item = Vec::new();
        while let Some(key) = map.next_key::<String>()? {
            if key == "item" {
                item = map.next_value::<Vec<ItemXml>>()?.into_iter().map(|i| i.0).collect();
            } else {
                map.next_value::<serde::de::IgnoredAny>()?;
            }
        }
        Ok(ChannelXml(RssChannel { item }))
    }
}

impl<'de> serde::de::Visitor<'de> for ItemVisitor {
    type Value = ItemXml;

    fn expecting(&self, f: &mut std::fmt::Formatter) -> std::fmt::Result {
        f.write_str("an item")
    }

    fn visit_map<A: serde::de::MapAccess<'de>>(self, mut map: A) -> Result<ItemXml, A::Error> {
        let mut item = RssItem { title: String::new(), link: String::new(), description: String::new() };
        while let Some(key) = map.next_key::<String>()? {
            match key.as_str() {
                "title" => item.title = map.next_value()?,
                "link" => item.link = map.next_value()?,
                "description" => item.description = map.next_value()?,
                _ => {
                    map.next_value::<serde::de::IgnoredAny>()?;
                }
            }
        }
        Ok(ItemXml(item))
    }
}

impl<'de> serde::Deserialize<'de> for FeedXml {
    fn deserialize<D: serde::Deserializer<'de>>(d: D) -> Result<FeedXml, D::Error> {
        d.deserialize_struct("RssFeed", &["channel"], FeedVisitor)
    }
}

impl<'de> serde::Deserialize<'de> for ChannelXml {
    fn deserialize<D: serde::Deserializer<'de>>(d: D) -> Result<ChannelXml, D::Error> {
        d.deserialize_struct("RssChannel", &["item"], ChannelVisitor)
    }
}

impl<'de> serde::Deserialize<'de> for ItemXml {
    fn deserialize<D: serde::Deserializer<'de>>(d: D) -> Result<ItemXml, D::Error> {
        d.deserialize_struct("RssItem", &["title", "link", "description"], ItemVisitor)
    }
}

fn feed(xml: &str) -> Option<RssFeed> {
    quick_xml::de::from_str::<FeedXml>(xml).ok().map(|f| f.0)
}

#[test]
fn parse_bing_rss_extracts_items() {
    let xml = r#"
            <rss>
              <channel>
                <item>
                  <title>Example title</title>
                  <link>https://example.com/post</link>
                  <description><![CDATA[<b>Hello</b> &amp; welcome]]></description>
                </item>
              </channel>
            </rss>
        "#;

    let results = parse_bing_rss(&feed(xml).expect("rss parsing should work"), 10);
    assert_eq!(results.len(), 1);
    assert_eq!(results[0].title, "Example title");
    assert_eq!(results[0].url, "https://example.com/post");
    assert_eq!(results[0].snippet, "Hello & welcome");
}

fn item(title: &str, link: &str, description: &str) -> RssItem {
    RssItem { title: title.to_string(), link: link.to_string(), description: description.to_string() }
}

fn items(item: Vec<RssItem>) -> RssFeed {
    RssFeed { channel: RssChannel { item } }
}

#[test]
fn items_without_a_title_or_an_address_are_left_out() {
    let feed = items(vec![
        item(" ", "https://a.example", ""),
        item("B", "\n", ""),
        item("  C  c ", " https://c.example ", "<i>x</i>\n &lt;y&gt;"),
        item("D", "https://c.example", ""),
    ]);
    let results = parse_bing_rss(&feed, 5);
    assert_eq!(results.len(), 2);
    assert_eq!(results[0].title, "C c");
    assert_eq!(results[0].url, " https://c.example ");
    assert_eq!(results[0].snippet, "x <y>");
    assert_eq!(results[0].source, "bing-rss");
    assert_eq!(parse_bing_rss(&feed, 1).len(), 1);
    assert_eq!(parse_bing_rss(&feed, 0).len(), 2);
}

#[test]
fn feeds_may_lack_parts() {
    assert_eq!(parse_bing_rss(&feed("<rss></rss>").expect("a feed"), 5).len(), 0);
    assert_eq!(parse_bing_rss(&feed("<rss><channel><title>t</title></channel></rss>").expect("a feed"), 5).len(), 0);
    assert!(feed("<rss").is_none());
}

const CARDS: &str = r#"
    <div class="result">
      <h2><a class="result__a" href="//duckduckgo.com/l/?uddg=x">First
         <b>title</b></a></h2>
      <a class="result__snippet">A  snippet</a>
    </div>
    <div class="result"><a class="result__a">No address</a></div>
    <div class="result"><a class="result__a" href="https://b.example"> </a></div>
    <div class="result"><a class="result__a" href="https://b.example/">B</a></div>
    <div class="result"><a class="result__a" href="https://b.example#again">B again</a></div>
    <div class="result"><a class="result__a" href="/l/?uddg=https%3A%2F%2Fc.example">C</a></div>
"#;

#[test]
fn cards_are_read() {
    let results = parse_duckduckgo_html(CARDS, 10);
    let shown: Vec<String> = results.iter().map(|r| format!("{}|{}|{}|{}", r.title, r.url, r.snippet, r.source)).collect();
    assert_eq!(
        shown,
        vec![
            "First title|https://duckduckgo.com/l/?uddg=x|A snippet|duckduckgo",
            "B|https://b.example/||duckduckgo",
            "C|https://c.example||duckduckgo",
        ]
    );
    assert_eq!(parse_duckduckgo_html(CARDS, 2).len(), 2);
    assert_eq!(parse_duckduckgo_html(CARDS, 0).len(), 3);
}

#[test]
fn marked_links_are_read_where_there_are_no_cards() {
    let html = r#"<a data-testid='result-title-a' href="https://b.example">B</a>
        <a class="result__a" href="https://a.example">A</a><a href="https://c.example">A longer title</a>"#;
    let titles: Vec<String> = parse_duckduckgo_html(html, 10).into_iter().map(|r| r.title).collect();
    assert_eq!(titles, vec!["A", "B"]);
}

#[test]
fn other_links_are_guessed() {
    let html = r#"<a href="https://a.example">An example</a><a href="https://b.example">short</a>
        <a href="https://duckduckgo.com/about">About the engine</a><a href="javascript:void(0)">Show more results</a>
        <h2><a href="https://c.example">In a heading</a></h2>"#;
    let titles: Vec<String> = parse_duckduckgo_html(html, 10).into_iter().map(|r| r.title).collect();
    assert_eq!(titles, vec!["In a heading", "An example"]);
    assert!(parse_duckduckgo_html("just text", 10).is_empty());
}

fn result(title: &str) -> SearchResult {
    SearchResult {
        title: title.to_string(),
        url: String::new(),
        snippet: String::new(),
        source: "bing-rss".to_string(),
    }
}

#[test]
fn an_answer_suffices_where_it_mentions_the_query() {
    assert!(bing_answer_suffices(&vec![result("x"), result("Alpha")], "alpha beta"));
    assert!(!bing_answer_suffices(&vec![result("x")], "alpha beta"));
    assert!(!bing_answer_suffices(&vec![], "alpha beta"));
}

#[test]
fn the_better_answer_is_taken() {
    let chosen = |primary: Vec<SearchResult>, quoted: Vec<SearchResult>| {
        choose_bing_answer(primary, quoted, "alpha beta").into_iter().map(|r| r.title).collect::<Vec<String>>()
    };
    assert_eq!(chosen(vec![result("x")], vec![result("alpha")]), vec!["alpha"]);
    assert_eq!(chosen(vec![result("x")], vec![result("y")]), vec!["x"]);
    assert_eq!(chosen(vec![], vec![result("y")]), vec!["y"]);
    assert_eq!(chosen(vec![result("x")], vec![]), vec!["x"]);
}
