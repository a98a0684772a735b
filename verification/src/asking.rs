//! Asking the providers: what their replies mean, and what to ask next.
use vstd::prelude::*;

use crate::letters::byte_count;
use crate::letters::byte_len;
use crate::providers::feed_results;
use crate::providers::html_results;
use crate::providers::parse_bing_rss;
use crate::providers::parse_duckduckgo_html;
use crate::providers::LARGEST_PAGE;
use crate::providers::RssFeed;
use crate::providers::RssItem;
use crate::results::models;
use crate::results::ResultModel;
use crate::results::SearchResult;
use crate::text::concatenated;

verus! {

/// The reply to a request for a page of results.
pub enum PageReply {
    /// There was none.
    Unreachable,
    /// It had a status that is no success.
    Refused(String),
    /// Its body could not be read.
    Unreadable,
    /// It had a body.
    Page(String),
}

/// The model of a [`PageReply`].
pub ghost enum PageReplyModel {
    Unreachable,
    Refused(Seq<char>),
    Unreadable,
    Page(Seq<char>),
}

impl View for PageReply {
    type V = PageReplyModel;

    open spec fn view(&self) -> PageReplyModel {
        match *self {
            PageReply::Unreachable => PageReplyModel::Unreachable,
            PageReply::Refused(status) => PageReplyModel::Refused(status@),
            PageReply::Unreadable => PageReplyModel::Unreadable,
            PageReply::Page(html) => PageReplyModel::Page(html@),
        }
    }
}

/// What follows from the first page of DuckDuckGo.
pub enum PageStep {
    /// These are the results.
    Done(Vec<SearchResult>),
    /// There are none, and this is why.
    Failed(String),
    /// The page held none: ask for the lite page.
    AskLite,
}

/// The model of a [`PageStep`].
pub ghost enum PageStepModel {
    Done(Seq<ResultModel>),
    Failed(Seq<char>),
    AskLite,
}

impl View for PageStep {
    type V = PageStepModel;

    open spec fn view(&self) -> PageStepModel {
        match *self {
            PageStep::Done(results) => PageStepModel::Done(models(results@)),
            PageStep::Failed(error) => PageStepModel::Failed(error@),
            PageStep::AskLite => PageStepModel::AskLite,
        }
    }
}

/// The model of the results of a provider, or of the reason why there are none.
pub open spec fn provided(res: Result<Vec<SearchResult>, String>) -> Result<
    Seq<ResultModel>,
    Seq<char>,
> {
    match res {
        Ok(results) => Ok(models(results@)),
        Err(error) => Err(error@),
    }
}

/// What follows from the first page of DuckDuckGo. One that is too large is taken for one that
/// could not be read.
pub open spec fn after_first_page(reply: PageReplyModel, limit: nat) -> PageStepModel {
    match reply {
        PageReplyModel::Unreachable => PageStepModel::Failed("DuckDuckGo request failed"@),
        PageReplyModel::Refused(status) => PageStepModel::Failed(
            "DuckDuckGo returned HTTP "@ + status,
        ),
        PageReplyModel::Unreadable => PageStepModel::Failed("DuckDuckGo body read failed"@),
        PageReplyModel::Page(html) => if byte_len(html) > LARGEST_PAGE {
            PageStepModel::Failed("DuckDuckGo body read failed"@)
        } else if html_results(html, limit).len() > 0 {
            PageStepModel::Done(html_results(html, limit))
        } else {
            PageStepModel::AskLite
        },
    }
}

/// What follows from the first page of DuckDuckGo.
pub fn judge_first_page(reply: &PageReply, limit: usize) -> (res: PageStep)
    ensures
        res@ == after_first_page(reply@, limit as nat),
        match *reply {
            PageReply::Unreachable => res@ == PageStepModel::Failed("DuckDuckGo request failed"@),
            PageReply::Refused(status) => res@ == PageStepModel::Failed(
                "DuckDuckGo returned HTTP "@ + status@,
            ),
            PageReply::Unreadable => res@ == PageStepModel::Failed("DuckDuckGo body read failed"@),
            PageReply::Page(html) => byte_len(html@) <= 0x2aaa_aaaa ==> {
                let found = html_results(html@, limit as nat);
                &&& found.len() > 0 ==> res@ == PageStepModel::Done(found)
                &&& found.len() == 0 ==> res is AskLite
            },
        },
{
    match reply {
        PageReply::Unreachable => PageStep::Failed("DuckDuckGo request failed".to_owned()),
        PageReply::Refused(status) => PageStep::Failed(
            concatenated("DuckDuckGo returned HTTP ", status.as_str()),
        ),
        PageReply::Unreadable => PageStep::Failed("DuckDuckGo body read failed".to_owned()),
        PageReply::Page(html) => {
            if byte_count(html.as_str()) > LARGEST_PAGE {
                return PageStep::Failed("DuckDuckGo body read failed".to_owned());
            }
            let results = parse_duckduckgo_html(html.as_str(), limit);
            assert(models(results@).len() == results@.len());
            if results.len() > 0 {
                PageStep::Done(results)
            } else {
                PageStep::AskLite
            }
        },
    }
}

/// What DuckDuckGo answers by its lite page, asked for because its first page held no results: a
/// refusal leaves it at that, and one that is too large is taken for one that could not be read.
pub open spec fn after_lite_page(reply: PageReplyModel, limit: nat) -> Result<
    Seq<ResultModel>,
    Seq<char>,
> {
    match reply {
        PageReplyModel::Unreachable => Err("DuckDuckGo lite request failed"@),
        PageReplyModel::Refused(_) => Ok(Seq::empty()),
        PageReplyModel::Unreadable => Err("DuckDuckGo lite body read failed"@),
        PageReplyModel::Page(html) => if byte_len(html) > LARGEST_PAGE {
            Err("DuckDuckGo lite body read failed"@)
        } else {
            Ok(html_results(html, limit))
        },
    }
}

/// What DuckDuckGo answers by its lite page.
pub fn judge_lite_page(reply: &PageReply, limit: usize) -> (res: Result<Vec<SearchResult>, String>)
    ensures
        provided(res) == after_lite_page(reply@, limit as nat),
        match *reply {
            PageReply::Unreachable => res matches Err(e) && e@ == "DuckDuckGo lite request failed"@,
            PageReply::Refused(_) => res matches Ok(results) && results@.len() == 0,
            PageReply::Unreadable => res matches Err(e) && e@
                == "DuckDuckGo lite body read failed"@,
            PageReply::Page(html) => byte_len(html@) <= 0x2aaa_aaaa ==> (res matches Ok(results)
                && models(results@) == html_results(html@, limit as nat)),
        },
{
    match reply {
        PageReply::Unreachable => Err("DuckDuckGo lite request failed".to_owned()),
        PageReply::Refused(_) => {
            let none: Vec<SearchResult> = Vec::new();
            assert(models(none@) =~= Seq::empty());
            Ok(none)
        },
        PageReply::Unreadable => Err("DuckDuckGo lite body read failed".to_owned()),
        PageReply::Page(html) => {
            if byte_count(html.as_str()) > LARGEST_PAGE {
                return Err("DuckDuckGo lite body read failed".to_owned());
            }
            Ok(parse_duckduckgo_html(html.as_str(), limit))
        },
    }
}

/// The reply to a request for a feed of results.
pub enum FeedReply {
    /// There was none.
    Unreachable,
    /// It had a status that is no success.
    Refused(String),
    /// Its body could not be read.
    Unreadable,
    /// Its body was no feed.
    Unparsable,
    /// It had a feed for its body.
    Feed(RssFeed),
}

/// The model of a [`FeedReply`].
pub ghost enum FeedReplyModel {
    Unreachable,
    Refused(Seq<char>),
    Unreadable,
    Unparsable,
    Feed(Seq<RssItem>),
}

impl View for FeedReply {
    type V = FeedReplyModel;

    open spec fn view(&self) -> FeedReplyModel {
        match *self {
            FeedReply::Unreachable => FeedReplyModel::Unreachable,
            FeedReply::Refused(status) => FeedReplyModel::Refused(status@),
            FeedReply::Unreadable => FeedReplyModel::Unreadable,
            FeedReply::Unparsable => FeedReplyModel::Unparsable,
            FeedReply::Feed(feed) => FeedReplyModel::Feed(feed.channel.item@),
        }
    }
}

/// What Bing answers by a feed.
pub open spec fn after_feed(reply: FeedReplyModel, limit: nat) -> Result<
    Seq<ResultModel>,
    Seq<char>,
> {
    match reply {
        FeedReplyModel::Unreachable => Err("Bing RSS request failed"@),
        FeedReplyModel::Refused(status) => Err("Bing RSS returned HTTP "@ + status),
        FeedReplyModel::Unreadable => Err("Bing RSS body read failed"@),
        FeedReplyModel::Unparsable => Err("Unable to parse Bing RSS XML"@),
        FeedReplyModel::Feed(items) => Ok(feed_results(items, limit)),
    }
}

/// What Bing answers by a feed.
pub fn judge_feed(reply: &FeedReply, limit: usize) -> (res: Result<Vec<SearchResult>, String>)
    ensures
        provided(res) == after_feed(reply@, limit as nat),
        match *reply {
            FeedReply::Unreachable => res matches Err(e) && e@ == "Bing RSS request failed"@,
            FeedReply::Refused(status) => res matches Err(e) && e@ == "Bing RSS returned HTTP "@
                + status@,
            FeedReply::Unreadable => res matches Err(e) && e@ == "Bing RSS body read failed"@,
            FeedReply::Unparsable => res matches Err(e) && e@ == "Unable to parse Bing RSS XML"@,
            FeedReply::Feed(feed) => res matches Ok(results) && models(results@) == feed_results(
                feed.channel.item@,
                limit as nat,
            ),
        },
{
    match reply {
        FeedReply::Unreachable => Err("Bing RSS request failed".to_owned()),
        FeedReply::Refused(status) => Err(concatenated("Bing RSS returned HTTP ", status.as_str())),
        FeedReply::Unreadable => Err("Bing RSS body read failed".to_owned()),
        FeedReply::Unparsable => Err("Unable to parse Bing RSS XML".to_owned()),
        FeedReply::Feed(feed) => Ok(parse_bing_rss(feed, limit)),
    }
}

} // verus!
