use blitzmd::asking::judge_feed;
use blitzmd::asking::judge_first_page;
use blitzmd::asking::judge_lite_page;
use blitzmd::asking::FeedReply;
use blitzmd::asking::PageReply;
use blitzmd::asking::PageStep;
use blitzmd::providers::RssChannel;
use blitzmd::providers::RssFeed;
use blitzmd::providers::RssItem;

const PAGE: &str = r#"<div class="result"><a class="result__a" href="https://a.example/">A title</a></div>"#;

fn failure(reply: PageReply) -> String {
    match judge_first_page(&reply, 5) {
        PageStep::Failed(error) => error,
        _ => panic!("expected a failure"),
    }
}

#[test]
fn the_first_page_answers_or_leads_to_the_lite_page() {
    assert_eq!(failure(PageReply::Unreachable), "DuckDuckGo request failed");
    assert_eq!(failure(PageReply::Refused("403 Forbidden".to_string())), "DuckDuckGo returned HTTP 403 Forbidden");
    assert_eq!(failure(PageReply::Unreadable), "DuckDuckGo body read failed");
    match judge_first_page(&PageReply::Page(PAGE.to_string()), 5) {
        PageStep::Done(results) => assert_eq!(results[0].title, "A title"),
        _ => panic!("expected results"),
    }
    assert!(matches!(judge_first_page(&PageReply::Page("<p>none</p>".to_string()), 5), PageStep::AskLite));
}

#[test]
fn the_lite_page_answers() {
    let lite = |reply: PageReply| judge_lite_page(&reply, 5).map(|rs| rs.len());
    assert_eq!(lite(PageReply::Unreachable), Err("DuckDuckGo lite request failed".to_string()));
    assert_eq!(lite(PageReply::Unreadable), Err("DuckDuckGo lite body read failed".to_string()));
    assert_eq!(lite(PageReply::Refused("500".to_string())), Ok(0));
    assert_eq!(lite(PageReply::Page(PAGE.to_string())), Ok(1));
    assert_eq!(lite(PageReply::Page(String::new())), Ok(0));
}

#[test]
fn a_feed_answers() {
    let feed = |reply: FeedReply| judge_feed(&reply, 5).map(|rs| rs.len());
    assert_eq!(feed(FeedReply::Unreachable), Err("Bing RSS request failed".to_string()));
    assert_eq!(
        feed(FeedReply::Refused("429 Too Many Requests".to_string())),
        Err("Bing RSS returned HTTP 429 Too Many Requests".to_string())
    );
    assert_eq!(feed(FeedReply::Unreadable), Err("Bing RSS body read failed".to_string()));
    assert_eq!(feed(FeedReply::Unparsable), Err("Unable to parse Bing RSS XML".to_string()));
    let item = RssItem { title: "t".to_string(), link: "l".to_string(), description: String::new() };
    assert_eq!(feed(FeedReply::Feed(RssFeed { channel: RssChannel { item: vec![item] } })), Ok(1));
}
