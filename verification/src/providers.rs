//! The search providers: what their answers hold, and what to ask next.
use vstd::prelude::*;

use crate::letters::byte_count;
use crate::letters::byte_len;
use crate::markup::strip_and_decode;
use crate::markup::stripped;
use crate::relevance::best;
use crate::relevance::best_relevance_score;
use crate::relevance::terms_of;
use crate::results::add_distinct;
use crate::results::all_different;
use crate::results::at_most;
use crate::results::distinct;
use crate::results::keys_of;
use crate::results::known;
use crate::results::law_distinct;
use crate::results::lemma_distinct_prefix;
use crate::results::models;
use crate::results::ResultModel;
use crate::results::SearchResult;
use crate::text::join;
use crate::text::law_normalized_whitespace;
use crate::text::law_trimmed;
use crate::text::normalize_whitespace;
use crate::text::single_spaced;
use crate::text::text_of;
use crate::text::texts;
use crate::text::trim;
use crate::text::trimmed;
use crate::text::white_space;
use crate::text::words;
use crate::urls::canonical;
use crate::urls::is_plausible_external_result_url;
use crate::urls::normalize_duckduckgo_url;
use crate::urls::plausible;
use crate::urls::result_address;

verus! {

// The page of results.

/// How many bytes a page of results has at most. The HTML parser holds text in buffers of less
/// than two gibibytes, and writes three bytes for some characters of one.
pub const LARGEST_PAGE: usize = 0x2aaa_aaaa;

/// A link of a page: where it refers to, and the text it shows.
pub struct Anchor {
    pub href: Option<String>,
    pub text: String,
}

/// The model of `Anchor`.
pub struct AnchorModel {
    pub href: Option<Seq<char>>,
    pub text: Seq<char>,
}

impl View for Anchor {
    type V = AnchorModel;

    open spec fn view(&self) -> AnchorModel {
        AnchorModel { href: text_of(self.href), text: self.text@ }
    }
}

/// The models of a list of links.
pub open spec fn anchor_models(anchors: Seq<Anchor>) -> Seq<AnchorModel> {
    anchors.map_values(|a: Anchor| a@)
}

/// A card of the page of results, with the links and the texts of the snippets in it.
pub struct ResultCard {
    pub links: Vec<Anchor>,
    pub snippets: Vec<String>,
}

/// The model of `ResultCard`.
pub struct CardModel {
    pub links: Seq<AnchorModel>,
    pub snippets: Seq<Seq<char>>,
}

impl View for ResultCard {
    type V = CardModel;

    open spec fn view(&self) -> CardModel {
        CardModel { links: anchor_models(self.links@), snippets: texts(self.snippets@) }
    }
}

/// The models of a list of cards.
pub open spec fn card_models(cards: Seq<ResultCard>) -> Seq<CardModel> {
    cards.map_values(|c: ResultCard| c@)
}

/// The selectors that the parts of the page of results are found by.
pub open spec fn page_selector(selector: Seq<char>) -> bool {
    ||| selector == ".result"@
    ||| selector == ".result__a"@
    ||| selector == ".result__snippet"@
    ||| selector == "a[data-testid='result-title-a']"@
    ||| selector == "h2 a"@
    ||| selector == "a"@
}

/// The elements of a page that match a selector, in the order of `scraper::Html::select`, each
/// with the value of its attribute `attribute` and its text.
pub uninterp spec fn selected_links(
    html: Seq<char>,
    selector: Seq<char>,
    attribute: Seq<char>,
) -> Seq<AnchorModel>;

/// The elements of a page that match `card`, in the order of `scraper::Html::select`, each with
/// the elements in it that match `link`, as in [`selected_links`], and the texts of those that
/// match `snippet`.
pub uninterp spec fn selected_cards(
    html: Seq<char>,
    card: Seq<char>,
    link: Seq<char>,
    attribute: Seq<char>,
    snippet: Seq<char>,
) -> Seq<CardModel>;

/// Calls `scraper::Html::parse_document` and `scraper::Html::select`, and reads an attribute and
/// the text of each element. What a page holds, by the HTML Standard, is named; beside it stands
/// that a page without `<`, and so without tags, has no links. `scraper::Selector::parse` is only
/// asked for selectors that it accepts, and the parser, which panics where one of its buffers
/// would outgrow its limit, is only given pages of up to [`LARGEST_PAGE`] bytes.
#[verifier::external_body]
fn select_links(html: &str, selector: &str, attribute: &str) -> (res: Vec<Anchor>)
    requires
        page_selector(selector@),
        byte_len(html@) <= LARGEST_PAGE,
    ensures
        anchor_models(res@) == selected_links(html@, selector@, attribute@),
        !html@.contains('<') ==> res@.len() == 0,
{
    let selector = scraper::Selector::parse(selector).unwrap();
    scraper::Html::parse_document(html).select(&selector).map(|a| Anchor {
        href: a.value().attr(attribute).map(str::to_string),
        text: a.text().collect(),
    }).collect()
}

/// Calls `scraper::Html::parse_document` and `scraper::Html::select`, and in each element
/// `scraper::ElementRef::select` twice, and reads an attribute and the text of the links and the
/// text of the snippets. What a page holds, by the HTML Standard, is named; beside it stands that
/// a page without `<`, and so without tags, has no cards. `scraper::Selector::parse` is only asked
/// for selectors that it accepts, and the parser is only given pages of up to [`LARGEST_PAGE`]
/// bytes.
#[verifier::external_body]
fn select_cards(html: &str, card: &str, link: &str, attribute: &str, snippet: &str) -> (res: Vec<
    ResultCard,
>)
    requires
        page_selector(card@),
        page_selector(link@),
        page_selector(snippet@),
        byte_len(html@) <= LARGEST_PAGE,
    ensures
        card_models(res@) == selected_cards(html@, card@, link@, attribute@, snippet@),
        !html@.contains('<') ==> res@.len() == 0,
{
    let card = scraper::Selector::parse(card).unwrap();
    let link = scraper::Selector::parse(link).unwrap();
    let snippet = scraper::Selector::parse(snippet).unwrap();
    scraper::Html::parse_document(html).select(&card).map(|c| ResultCard {
        links: c.select(&link).map(|a| Anchor {
            href: a.value().attr(attribute).map(str::to_string),
            text: a.text().collect(),
        }).collect(),
        snippets: c.select(&snippet).map(|s| s.text().collect()).collect(),
    }).collect()
}

/// A text with its white space normalized.
pub open spec fn squeezed(s: Seq<char>) -> Seq<char> {
    join(words(s), " "@)
}

/// The result that a link stands for.
pub open spec fn link_result(a: AnchorModel) -> Option<ResultModel> {
    match a.href {
        Some(href) => if squeezed(a.text).len() > 0 {
            Some(
                ResultModel {
                    title: squeezed(a.text),
                    url: result_address(href),
                    snippet: Seq::empty(),
                    source: "duckduckgo"@,
                },
            )
        } else {
            None
        },
        None => None,
    }
}

/// The result that a card stands for: that of its first link, with the text of its first snippet.
pub open spec fn card_result(c: CardModel) -> Option<ResultModel> {
    if c.links.len() == 0 {
        None
    } else {
        match link_result(c.links[0]) {
            Some(r) => Some(
                ResultModel {
                    snippet: if c.snippets.len() == 0 {
                        Seq::empty()
                    } else {
                        squeezed(c.snippets[0])
                    },
                    ..r
                },
            ),
            None => None,
        }
    }
}

/// The result that a link stands for where nothing marks it as one: it must lead outside the
/// search engine, and its title must have eight bytes or more.
pub open spec fn guessed_result(a: AnchorModel) -> Option<ResultModel> {
    match link_result(a) {
        Some(r) => if plausible(r.url) && byte_len(r.title) >= 8 {
            Some(r)
        } else {
            None
        },
        None => None,
    }
}

/// What `candidates` hold, in order.
pub open spec fn present(candidates: Seq<Option<ResultModel>>) -> Seq<ResultModel>
    decreases candidates.len(),
{
    if candidates.len() == 0 {
        Seq::empty()
    } else {
        let before = present(candidates.drop_last());
        match candidates.last() {
            Some(r) => before.push(r),
            None => before,
        }
    }
}

/// The first `limit` of `results`; all of them where `limit` is zero or there are no more.
pub open spec fn up_to(results: Seq<ResultModel>, limit: nat) -> Seq<ResultModel> {
    if limit == 0 {
        results
    } else {
        at_most(results, limit)
    }
}

/// What `candidates` hold, without duplicates, up to `limit`.
pub open spec fn gathered(candidates: Seq<Option<ResultModel>>, limit: nat) -> Seq<ResultModel> {
    up_to(distinct(present(candidates)), limit)
}

/// The results of a page's cards.
pub open spec fn card_results(cards: Seq<CardModel>, limit: nat) -> Seq<ResultModel> {
    gathered(cards.map_values(|c: CardModel| card_result(c)), limit)
}

/// The results of a page's marked links.
pub open spec fn link_results(links: Seq<AnchorModel>, limit: nat) -> Seq<ResultModel> {
    gathered(links.map_values(|a: AnchorModel| link_result(a)), limit)
}

/// The results that a page's links are taken for.
pub open spec fn guessed_results(links: Seq<AnchorModel>, limit: nat) -> Seq<ResultModel> {
    gathered(links.map_values(|a: AnchorModel| guessed_result(a)), limit)
}

/// The results of a page: those of its cards; where there are none, those of its marked links;
/// where there are none either, those that its links are taken for.
pub open spec fn page_results(
    cards: Seq<CardModel>,
    marked: Seq<AnchorModel>,
    others: Seq<AnchorModel>,
    limit: nat,
) -> Seq<ResultModel> {
    if card_results(cards, limit).len() > 0 {
        card_results(cards, limit)
    } else if link_results(marked, limit).len() > 0 {
        link_results(marked, limit)
    } else {
        guessed_results(others, limit)
    }
}

/// More candidates hold what fewer hold, and more.
proof fn lemma_present_prefix(a: Seq<Option<ResultModel>>, k: int)
    requires
        0 <= k <= a.len(),
    ensures
        present(a.take(k)).is_prefix_of(present(a)),
    decreases a.len(),
{
    if k < a.len() {
        assert(a.drop_last().take(k) =~= a.take(k));
        lemma_present_prefix(a.drop_last(), k);
    } else {
        assert(a.take(k) =~= a);
    }
}

/// The model of an optional result.
pub open spec fn result_model(r: Option<SearchResult>) -> Option<ResultModel> {
    match r {
        Some(r) => Some(r@),
        None => None,
    }
}

/// What `candidates` hold, without duplicates, up to `limit`.
pub fn gather(candidates: Vec<Option<SearchResult>>, limit: usize) -> (res: Vec<SearchResult>)
    ensures
        models(res@) == gathered(
            candidates@.map_values(|c: Option<SearchResult>| result_model(c)),
            limit as nat,
        ),
{
    let ghost all = candidates@.map_values(|c: Option<SearchResult>| result_model(c));
    let mut results: Vec<SearchResult> = Vec::new();
    let mut keys: Vec<String> = Vec::new();
    let mut i: usize = 0;
    assert(models(results@) =~= distinct(present(all.take(0))));
    while i < candidates.len()
        invariant
            i <= candidates@.len(),
            all == candidates@.map_values(|c: Option<SearchResult>| result_model(c)),
            keys_of(keys@, results@),
            limit > 0 ==> results@.len() < limit,
            models(results@) == distinct(present(all.take(i as int))),
        decreases candidates@.len() - i,
    {
        assert(all.take(i + 1).drop_last() =~= all.take(i as int));
        let ghost seen = present(all.take(i as int));
        let ghost seen_next = present(all.take(i + 1));
        if let Some(r) = &candidates[i] {
            assert(seen_next =~= seen.push(r@));
            assert(seen_next.drop_last() =~= seen);
            let added: bool = add_distinct(&mut results, &mut keys, r.clone());
            assert(models(results@) =~= distinct(seen_next));
            if added && results.len() == limit {
                proof {
                    lemma_present_prefix(all, i + 1);
                    let rest = present(all).skip(seen_next.len() as int);
                    assert(present(all) =~= seen_next + rest);
                    lemma_distinct_prefix(seen_next, rest);
                    assert(models(results@) =~= at_most(distinct(present(all)), limit as nat));
                }
                return results;
            }
        }
        i += 1;
    }
    assert(all.take(i as int) =~= all);
    results
}

/// The result that a link stands for.
fn result_of_link(a: &Anchor) -> (res: Option<SearchResult>)
    ensures
        result_model(res) == link_result(a@),
{
    match &a.href {
        Some(href) => {
            let title = normalize_whitespace(a.text.as_str());
            if title.as_str().is_empty() {
                return None;
            }
            let url = normalize_duckduckgo_url(href.as_str());
            let source = "duckduckgo".to_owned();
            Some(SearchResult { title, url, snippet: String::new(), source })
        },
        None => None,
    }
}

/// The result that a card stands for.
fn result_of_card(c: &ResultCard) -> (res: Option<SearchResult>)
    ensures
        result_model(res) == card_result(c@),
{
    if c.links.len() == 0 {
        return None;
    }
    assert(c@.links[0] == c.links@[0]@);
    match result_of_link(&c.links[0]) {
        Some(r) => {
            let snippet: String = if c.snippets.len() == 0 {
                String::new()
            } else {
                assert(c@.snippets[0] == c.snippets@[0]@);
                normalize_whitespace(c.snippets[0].as_str())
            };
            Some(SearchResult { title: r.title, url: r.url, snippet, source: r.source })
        },
        None => None,
    }
}

/// The result that an unmarked link is taken for.
fn result_of_guess(a: &Anchor) -> (res: Option<SearchResult>)
    ensures
        result_model(res) == guessed_result(a@),
{
    match result_of_link(a) {
        Some(r) => if is_plausible_external_result_url(r.url.as_str()) && byte_count(
            r.title.as_str(),
        ) >= 8 {
            Some(r)
        } else {
            None
        },
        None => None,
    }
}

/// The results of a page's cards.
pub fn results_from_cards(cards: &Vec<ResultCard>, limit: usize) -> (res: Vec<SearchResult>)
    ensures
        models(res@) == card_results(card_models(cards@), limit as nat),
{
    let ghost ms = card_models(cards@);
    let mut candidates: Vec<Option<SearchResult>> = Vec::new();
    let mut i: usize = 0;
    while i < cards.len()
        invariant
            i <= cards@.len(),
            i == candidates@.len(),
            forall|k: int|
                0 <= k < i ==> result_model(#[trigger] candidates@[k]) == card_result(cards@[k]@),
        decreases cards@.len() - i,
    {
        candidates.push(result_of_card(&cards[i]));
        i += 1;
    }
    assert(candidates@.map_values(|c: Option<SearchResult>| result_model(c)) =~= ms.map_values(
        |c: CardModel| card_result(c),
    ));
    gather(candidates, limit)
}

/// The results of a page's marked links.
pub fn results_from_links(links: &Vec<Anchor>, limit: usize) -> (res: Vec<SearchResult>)
    ensures
        models(res@) == link_results(anchor_models(links@), limit as nat),
{
    let ghost ms = anchor_models(links@);
    let mut candidates: Vec<Option<SearchResult>> = Vec::new();
    let mut i: usize = 0;
    while i < links.len()
        invariant
            i <= links@.len(),
            i == candidates@.len(),
            forall|k: int|
                0 <= k < i ==> result_model(#[trigger] candidates@[k]) == link_result(links@[k]@),
        decreases links@.len() - i,
    {
        candidates.push(result_of_link(&links[i]));
        i += 1;
    }
    assert(candidates@.map_values(|c: Option<SearchResult>| result_model(c)) =~= ms.map_values(
        |a: AnchorModel| link_result(a),
    ));
    gather(candidates, limit)
}

/// The results that a page's links are taken for.
pub fn results_from_guesses(links: &Vec<Anchor>, limit: usize) -> (res: Vec<SearchResult>)
    ensures
        models(res@) == guessed_results(anchor_models(links@), limit as nat),
{
    let ghost ms = anchor_models(links@);
    let mut candidates: Vec<Option<SearchResult>> = Vec::new();
    let mut i: usize = 0;
    while i < links.len()
        invariant
            i <= links@.len(),
            i == candidates@.len(),
            forall|k: int|
                0 <= k < i ==> result_model(#[trigger] candidates@[k]) == guessed_result(
                    links@[k]@,
                ),
        decreases links@.len() - i,
    {
        candidates.push(result_of_guess(&links[i]));
        i += 1;
    }
    assert(candidates@.map_values(|c: Option<SearchResult>| result_model(c)) =~= ms.map_values(
        |a: AnchorModel| guessed_result(a),
    ));
    gather(candidates, limit)
}

/// The results of a page of the search engine.
pub open spec fn html_results(html: Seq<char>, limit: nat) -> Seq<ResultModel> {
    page_results(
        selected_cards(html, ".result"@, ".result__a"@, "href"@, ".result__snippet"@),
        selected_links(html, ".result__a"@, "href"@) + selected_links(
            html,
            "a[data-testid='result-title-a']"@,
            "href"@,
        ),
        selected_links(html, "h2 a"@, "href"@) + selected_links(html, "a"@, "href"@),
        limit,
    )
}

/// The results of a page of the search engine. A page without tags has none.
pub fn parse_duckduckgo_html(html: &str, limit: usize) -> (res: Vec<SearchResult>)
    requires
        byte_len(html@) <= LARGEST_PAGE,
    ensures
        models(res@) == html_results(html@, limit as nat),
        models(res@) == page_results(
            selected_cards(html@, ".result"@, ".result__a"@, "href"@, ".result__snippet"@),
            selected_links(html@, ".result__a"@, "href"@) + selected_links(
                html@,
                "a[data-testid='result-title-a']"@,
                "href"@,
            ),
            selected_links(html@, "h2 a"@, "href"@) + selected_links(html@, "a"@, "href"@),
            limit as nat,
        ),
        !html@.contains('<') ==> res@.len() == 0,
{
    let cards = select_cards(html, ".result", ".result__a", "href", ".result__snippet");
    let results = results_from_cards(&cards, limit);
    assert(models(results@).len() == results@.len());
    if results.len() > 0 {
        return results;
    }
    let mut marked = select_links(html, ".result__a", "href");
    let mut alternative = select_links(html, "a[data-testid='result-title-a']", "href");
    let ghost both = anchor_models(marked@) + anchor_models(alternative@);
    marked.append(&mut alternative);
    assert(anchor_models(marked@) =~= both);
    let results = results_from_links(&marked, limit);
    assert(models(results@).len() == results@.len());
    if results.len() > 0 {
        return results;
    }
    let mut headings = select_links(html, "h2 a", "href");
    let mut others = select_links(html, "a", "href");
    let ghost both = anchor_models(headings@) + anchor_models(others@);
    headings.append(&mut others);
    assert(anchor_models(headings@) =~= both);
    results_from_guesses(&headings, limit)
}

// The feed of results.

/// A feed of results.
#[derive(Debug)]
pub struct RssFeed {
    pub channel: RssChannel,
}

/// The channel of a feed.
#[derive(Debug)]
pub struct RssChannel {
    pub item: Vec<RssItem>,
}

/// An item of a channel.
#[derive(Debug)]
pub struct RssItem {
    pub title: String,
    pub link: String,
    pub description: String,
}

/// The result that an item stands for: one with an address and a title, and the text of its
/// description as the snippet.
pub open spec fn item_result(item: RssItem) -> Option<ResultModel> {
    if trim(item.link@).len() == 0 || trim(item.title@).len() == 0 {
        None
    } else {
        Some(
            ResultModel {
                title: squeezed(item.title@),
                url: item.link@,
                snippet: squeezed(stripped(item.description@)),
                source: "bing-rss"@,
            },
        )
    }
}

/// The results of a feed, up to `limit`.
pub open spec fn feed_results(items: Seq<RssItem>, limit: nat) -> Seq<ResultModel> {
    up_to(present(items.map_values(|i: RssItem| item_result(i))), limit)
}

/// The results of a feed, up to `limit`.
pub fn parse_bing_rss(feed: &RssFeed, limit: usize) -> (res: Vec<SearchResult>)
    ensures
        models(res@) == feed_results(feed.channel.item@, limit as nat),
{
    let items: &Vec<RssItem> = &feed.channel.item;
    let ghost all = items@.map_values(|i: RssItem| item_result(i));
    let mut results: Vec<SearchResult> = Vec::new();
    let mut i: usize = 0;
    assert(models(results@) =~= present(all.take(0)));
    while i < items.len()
        invariant
            i <= items@.len(),
            items@ == feed.channel.item@,
            all == items@.map_values(|i: RssItem| item_result(i)),
            limit > 0 ==> results@.len() < limit,
            models(results@) == present(all.take(i as int)),
        decreases items@.len() - i,
    {
        let item = &items[i];
        assert(all[i as int] == item_result(*item));
        assert(all.take(i + 1).drop_last() =~= all.take(i as int));
        if !trimmed(item.link.as_str()).as_str().is_empty() && !trimmed(
            item.title.as_str(),
        ).as_str().is_empty() {
            let text = strip_and_decode(item.description.as_str());
            let snippet = normalize_whitespace(text.as_str());
            let ghost before = models(results@);
            results.push(
                SearchResult {
                    title: normalize_whitespace(item.title.as_str()),
                    url: item.link.clone(),
                    snippet,
                    source: "bing-rss".to_owned(),
                },
            );
            assert(models(results@) =~= before.push(all[i as int]->0));
            if results.len() == limit {
                proof {
                    lemma_present_prefix(all, i + 1);
                    assert(models(results@) =~= at_most(present(all), limit as nat));
                }
                return results;
            }
        }
        i += 1;
    }
    assert(all.take(i as int) =~= all);
    results
}

/// Whether the answer to a query is good enough not to ask for the query between quotation
/// marks.
pub fn bing_answer_suffices(primary: &Vec<SearchResult>, query: &str) -> (res: bool)
    ensures
        res == (primary@.len() > 0 && best(models(primary@), terms_of(words(query@))) > 0),
{
    primary.len() > 0 && best_relevance_score(primary, query) > 0
}

/// Which of the answers to a query and to the query between quotation marks to take: the second,
/// where it matches the query better or the first is empty.
pub fn choose_bing_answer(
    primary: Vec<SearchResult>,
    quoted: Vec<SearchResult>,
    query: &str,
) -> (res: Vec<SearchResult>)
    ensures
        res@ == (if best(models(quoted@), terms_of(words(query@))) > best(
            models(primary@),
            terms_of(words(query@)),
        ) || primary@.len() == 0 {
            quoted@
        } else {
            primary@
        }),
{
    if best_relevance_score(&quoted, query) > best_relevance_score(&primary, query) {
        return quoted;
    }
    if primary.len() == 0 {
        return quoted;
    }
    primary
}

// Laws.

/// What is present stands among the candidates.
proof fn lemma_present(candidates: Seq<Option<ResultModel>>)
    ensures
        forall|k: int|
            0 <= k < present(candidates).len() ==> candidates.contains(
                Some(#[trigger] present(candidates)[k]),
            ),
    decreases candidates.len(),
{
    if candidates.len() > 0 {
        let few = candidates.drop_last();
        let before = present(few);
        let out = present(candidates);
        lemma_present(few);
        assert forall|k: int| 0 <= k < out.len() implies candidates.contains(
            Some(#[trigger] out[k]),
        ) by {
            if k < before.len() {
                assert(out[k] == before[k]);
                let i = choose|i: int| 0 <= i < few.len() && few[i] == Some(before[k]);
                assert(candidates[i] == Some(out[k]));
            } else {
                assert(candidates[candidates.len() - 1] == Some(out[k]));
            }
        }
    }
}

/// What is gathered is no more than asked for, leads to different places, and stands among the
/// candidates.
proof fn lemma_gathered(candidates: Seq<Option<ResultModel>>, limit: nat)
    ensures
        limit > 0 ==> gathered(candidates, limit).len() <= limit,
        all_different(gathered(candidates, limit)),
        forall|k: int|
            0 <= k < gathered(candidates, limit).len() ==> candidates.contains(
                Some(#[trigger] gathered(candidates, limit)[k]),
            ),
{
    let all = present(candidates);
    let out = gathered(candidates, limit);
    law_distinct(all);
    lemma_present(candidates);
    assert forall|k: int| 0 <= k < out.len() implies #[trigger] out[k] == distinct(all)[k] by {}
    assert forall|k: int| 0 <= k < out.len() implies candidates.contains(
        Some(#[trigger] out[k]),
    ) by {
        let i = choose|i: int| 0 <= i < all.len() && all[i] == distinct(all)[k];
        assert(candidates.contains(Some(all[i])));
    }
    assert forall|i: int, j: int| 0 <= i < j < out.len() implies canonical((#[trigger] out[i]).url)
        != canonical((#[trigger] out[j]).url) by {
        assert(out[i] == distinct(all)[i]);
        assert(out[j] == distinct(all)[j]);
    }
}

/// Whether a text has its white space normalized: single spaces between words, and nothing that
/// normalizing it again would change.
pub open spec fn is_squeezed(s: Seq<char>) -> bool {
    single_spaced(s) && squeezed(s) == s
}

/// The title of a result that a link stands for has its white space normalized.
proof fn lemma_link_result_squeezed(a: AnchorModel)
    ensures
        link_result(a) matches Some(r) ==> r.title.len() > 0 && is_squeezed(r.title)
            && is_squeezed(r.snippet),
{
    law_normalized_whitespace(a.text);
    assert(squeezed(Seq::empty()) =~= Seq::empty());
}

/// The title and the snippet of a result that a card stands for have their white space normalized.
proof fn lemma_card_result_squeezed(c: CardModel)
    ensures
        card_result(c) matches Some(r) ==> r.title.len() > 0 && is_squeezed(r.title)
            && is_squeezed(r.snippet),
{
    if c.links.len() > 0 {
        lemma_link_result_squeezed(c.links[0]);
    }
    if c.snippets.len() > 0 {
        law_normalized_whitespace(c.snippets[0]);
    }
    assert(squeezed(Seq::empty()) =~= Seq::empty());
}

/// A text has words where normalizing its white space leaves anything.
proof fn lemma_squeezed(s: Seq<char>)
    ensures
        squeezed(s).len() > 0 <==> words(s).len() > 0,
{
    law_normalized_whitespace(s);
    if words(s).len() == 0 {
        assert(squeezed(s) =~= Seq::empty());
    } else if squeezed(s).len() == 0 {
        assert(words(squeezed(s)) =~= Seq::empty());
    }
}

/// A link is a result where it has a reference and its text has words: these are the title, with
/// single spaces between them, and the address is where the reference leads.
pub proof fn law_link_result(a: AnchorModel)
    ensures
        link_result(a) is Some <==> a.href is Some && words(a.text).len() > 0,
        link_result(a) matches Some(r) ==> {
            &&& r.title == join(words(a.text), " "@)
            &&& r.url == result_address(a.href->0)
            &&& r.snippet == Seq::<char>::empty()
            &&& r.source == "duckduckgo"@
        },
{
    lemma_squeezed(a.text);
}

/// A card is the result of its first link, and the words of its first snippet are the snippet.
pub proof fn law_card_result(c: CardModel)
    ensures
        card_result(c) is Some <==> c.links.len() > 0 && c.links[0].href is Some && words(
            c.links[0].text,
        ).len() > 0,
        card_result(c) matches Some(r) ==> {
            &&& r.title == join(words(c.links[0].text), " "@)
            &&& r.url == result_address(c.links[0].href->0)
            &&& c.snippets.len() > 0 ==> r.snippet == join(words(c.snippets[0]), " "@)
            &&& c.snippets.len() == 0 ==> r.snippet == Seq::<char>::empty()
            &&& r.source == "duckduckgo"@
        },
{
    if c.links.len() > 0 {
        law_link_result(c.links[0]);
    }
}

/// A link that nothing marks as a result is taken for one where it would be one if it were marked,
/// leads out of the search engine's site, and has a title of eight bytes or more.
pub proof fn law_guessed_result(a: AnchorModel)
    ensures
        guessed_result(a) is Some <==> a.href is Some && words(a.text).len() > 0 && plausible(
            result_address(a.href->0),
        ) && byte_len(join(words(a.text), " "@)) >= 8,
        guessed_result(a) matches Some(r) ==> link_result(a) == Some(r),
{
    law_link_result(a);
}

/// An item of a feed is a result where its link and its title are more than white space: the words
/// of the title are the title, the link is the address, and what the description reads without
/// tags is the snippet.
pub proof fn law_item_result(item: RssItem)
    ensures
        item_result(item) is Some <==> (exists|i: int|
            0 <= i < item.link@.len() && !white_space(#[trigger] item.link@[i])) && (exists|i: int|
            0 <= i < item.title@.len() && !white_space(#[trigger] item.title@[i])),
        item_result(item) matches Some(r) ==> {
            &&& r.title == join(words(item.title@), " "@)
            &&& r.url == item.link@
            &&& r.snippet == join(words(stripped(item.description@)), " "@)
            &&& r.source == "bing-rss"@
        },
{
    let a = law_trimmed(item.link@);
    let b = law_trimmed(item.title@);
    if trim(item.link@).len() > 0 {
        assert(!white_space(item.link@[a.0]));
    }
    if trim(item.title@).len() > 0 {
        assert(!white_space(item.title@[b.0]));
    }
}

/// Of some candidates all that are results are kept, in their order, and nothing else.
pub proof fn law_present(candidates: Seq<Option<ResultModel>>) -> (places: Seq<int>)
    ensures
        places.len() == present(candidates).len(),
        forall|k: int|
            0 <= k < places.len() ==> 0 <= #[trigger] places[k] < candidates.len()
                && candidates[places[k]] == Some(present(candidates)[k]),
        forall|j: int, k: int|
            0 <= j < k < places.len() ==> #[trigger] places[j] < #[trigger] places[k],
        forall|i: int|
            0 <= i < candidates.len() && (#[trigger] candidates[i]) is Some ==> places.contains(i),
    decreases candidates.len(),
{
    if candidates.len() == 0 {
        Seq::empty()
    } else {
        let few = candidates.drop_last();
        let last = candidates.len() - 1;
        let before = law_present(few);
        let places = if candidates.last() is Some {
            before.push(last)
        } else {
            before
        };
        assert forall|k: int| 0 <= k < places.len() implies 0 <= #[trigger] places[k]
            < candidates.len() && candidates[places[k]] == Some(present(candidates)[k]) by {
            if k < before.len() {
                assert(places[k] == before[k]);
                assert(few[before[k]] == candidates[before[k]]);
            }
        }
        assert forall|j: int, k: int| 0 <= j < k < places.len() implies #[trigger] places[j]
            < #[trigger] places[k] by {
            assert(places[j] == before[j]);
            if k < before.len() {
                assert(places[k] == before[k]);
            }
        }
        assert forall|i: int|
            0 <= i < candidates.len() && (
            #[trigger] candidates[i]) is Some implies places.contains(i) by {
            if i < last {
                assert(few[i] == candidates[i]);
                let k = choose|k: int| 0 <= k < before.len() && before[k] == i;
                assert(places[k] == i);
            } else {
                assert(places[before.len() as int] == i);
            }
        }
        places
    }
}

/// What is gathered leads wherever one of the candidates leads, unless there are as many results
/// as asked for; it is the first of what the candidates hold without duplicates.
pub proof fn law_gathered(candidates: Seq<Option<ResultModel>>, limit: nat)
    ensures
        ({
            let out = gathered(candidates, limit);
            let all = distinct(present(candidates));
            &&& out.len() == (if 0 < limit < all.len() {
                limit
            } else {
                all.len()
            })
            &&& forall|k: int| 0 <= k < out.len() ==> #[trigger] out[k] == all[k]
            &&& limit == 0 || out.len() < limit ==> forall|i: int|
                0 <= i < candidates.len() && (#[trigger] candidates[i]) is Some ==> known(
                    out,
                    candidates[i]->0,
                )
            &&& out.len() > 0 <==> exists|i: int|
                0 <= i < candidates.len() && (#[trigger] candidates[i]) is Some
        }),
{
    let out = gathered(candidates, limit);
    let all = distinct(present(candidates));
    lemma_all_known(candidates);
    if limit == 0 || out.len() < limit {
        assert(out == all);
    }
    if all.len() > 0 {
        assert(out.len() > 0);
    }
}

/// Without duplicates, what candidates hold leads wherever one of them leads, and is something
/// where one of them is.
proof fn lemma_all_known(candidates: Seq<Option<ResultModel>>)
    ensures
        forall|i: int|
            0 <= i < candidates.len() && (#[trigger] candidates[i]) is Some ==> known(
                distinct(present(candidates)),
                candidates[i]->0,
            ),
        distinct(present(candidates)).len() > 0 <==> exists|i: int|
            0 <= i < candidates.len() && (#[trigger] candidates[i]) is Some,
{
    let found = present(candidates);
    let all = distinct(found);
    let places = law_present(candidates);
    law_distinct(found);
    assert forall|i: int|
        0 <= i < candidates.len() && (#[trigger] candidates[i]) is Some implies known(
        all,
        candidates[i]->0,
    ) by {
        let k = choose|k: int| 0 <= k < places.len() && places[k] == i;
        assert(0 <= places[k] < candidates.len());
        assert(known(all, found[k]));
    }
    if exists|i: int| 0 <= i < candidates.len() && (#[trigger] candidates[i]) is Some {
        let i = choose|i: int| 0 <= i < candidates.len() && (#[trigger] candidates[i]) is Some;
        assert(known(all, candidates[i]->0));
    }
    if all.len() > 0 {
        assert(found.contains(all[0]));
        assert(0 <= places[0] < candidates.len());
        assert(candidates[places[0]] is Some);
    }
}

/// Where one of the cards of a page is a result, its results are those of its cards; where none is
/// but a marked link is one, those of its marked links; and otherwise those that its other links
/// are taken for.
pub proof fn law_page_results_come_from(
    cards: Seq<CardModel>,
    marked: Seq<AnchorModel>,
    others: Seq<AnchorModel>,
    limit: nat,
)
    ensures
        ({
            let some_card = exists|i: int|
                0 <= i < cards.len() && card_result(#[trigger] cards[i]) is Some;
            let some_link = exists|i: int|
                0 <= i < marked.len() && link_result(#[trigger] marked[i]) is Some;
            page_results(cards, marked, others, limit) == (if some_card {
                gathered(cards.map_values(|c: CardModel| card_result(c)), limit)
            } else if some_link {
                gathered(marked.map_values(|a: AnchorModel| link_result(a)), limit)
            } else {
                gathered(others.map_values(|a: AnchorModel| guessed_result(a)), limit)
            })
        }),
{
    let from_cards = cards.map_values(|c: CardModel| card_result(c));
    let from_marked = marked.map_values(|a: AnchorModel| link_result(a));
    law_gathered(from_cards, limit);
    law_gathered(from_marked, limit);
    assert forall|i: int| 0 <= i < cards.len() implies #[trigger] from_cards[i] == card_result(
        cards[i],
    ) by {}
    assert forall|i: int| 0 <= i < marked.len() implies #[trigger] from_marked[i] == link_result(
        marked[i],
    ) by {}
    if exists|i: int| 0 <= i < cards.len() && card_result(#[trigger] cards[i]) is Some {
        let i = choose|i: int| 0 <= i < cards.len() && card_result(#[trigger] cards[i]) is Some;
        assert(from_cards[i] is Some);
    }
    if exists|i: int| 0 <= i < marked.len() && link_result(#[trigger] marked[i]) is Some {
        let i = choose|i: int| 0 <= i < marked.len() && link_result(#[trigger] marked[i]) is Some;
        assert(from_marked[i] is Some);
    }
}

/// The results of a page are no more than asked for, lead to different places, and have titles;
/// their titles and snippets have their white space normalized.
pub proof fn law_page_results(
    cards: Seq<CardModel>,
    marked: Seq<AnchorModel>,
    others: Seq<AnchorModel>,
    limit: nat,
)
    ensures
        ({
            let out = page_results(cards, marked, others, limit);
            &&& limit > 0 ==> out.len() <= limit
            &&& all_different(out)
            &&& forall|k: int|
                0 <= k < out.len() ==> (#[trigger] out[k]).title.len() > 0 && is_squeezed(
                    out[k].title,
                ) && is_squeezed(out[k].snippet) && out[k].source == "duckduckgo"@
        }),
{
    let from_cards = cards.map_values(|c: CardModel| card_result(c));
    let from_marked = marked.map_values(|a: AnchorModel| link_result(a));
    let from_others = others.map_values(|a: AnchorModel| guessed_result(a));
    lemma_gathered(from_cards, limit);
    lemma_gathered(from_marked, limit);
    lemma_gathered(from_others, limit);
    let out = page_results(cards, marked, others, limit);
    assert forall|k: int| 0 <= k < out.len() implies (#[trigger] out[k]).title.len() > 0
        && is_squeezed(out[k].title) && is_squeezed(out[k].snippet) && out[k].source
        == "duckduckgo"@ by {
        let r = out[k];
        if card_results(cards, limit).len() > 0 {
            assert(from_cards.contains(Some(r)));
            let i = choose|i: int| 0 <= i < from_cards.len() && from_cards[i] == Some(r);
            assert(card_result(cards[i]) == Some(r));
            lemma_card_result_squeezed(cards[i]);
        } else if link_results(marked, limit).len() > 0 {
            assert(from_marked.contains(Some(r)));
            let i = choose|i: int| 0 <= i < from_marked.len() && from_marked[i] == Some(r);
            assert(link_result(marked[i]) == Some(r));
            lemma_link_result_squeezed(marked[i]);
        } else {
            assert(from_others.contains(Some(r)));
            let i = choose|i: int| 0 <= i < from_others.len() && from_others[i] == Some(r);
            assert(guessed_result(others[i]) == Some(r));
            lemma_link_result_squeezed(others[i]);
        }
    }
}

/// The results of a feed are those of its items that are results, in their order: the first so
/// many as asked for, and all where no number was asked for or there are no more.
pub proof fn law_feed_results_in_order(items: Seq<RssItem>, limit: nat)
    ensures
        ({
            let all = present(items.map_values(|i: RssItem| item_result(i)));
            let out = feed_results(items, limit);
            &&& out.len() == (if 0 < limit < all.len() {
                limit
            } else {
                all.len()
            })
            &&& forall|k: int| 0 <= k < out.len() ==> #[trigger] out[k] == all[k]
        }),
{
}

/// The results of a feed are no more than asked for, and each stands for one of its items.
pub proof fn law_feed_results(items: Seq<RssItem>, limit: nat)
    ensures
        limit > 0 ==> feed_results(items, limit).len() <= limit,
        forall|k: int|
            0 <= k < feed_results(items, limit).len() ==> exists|i: int|
                0 <= i < items.len() && item_result(#[trigger] items[i]) == Some(
                    #[trigger] feed_results(items, limit)[k],
                ),
{
    let all = items.map_values(|i: RssItem| item_result(i));
    lemma_present(all);
    let out = feed_results(items, limit);
    assert forall|k: int| 0 <= k < out.len() implies exists|i: int|
        0 <= i < items.len() && item_result(#[trigger] items[i]) == Some(#[trigger] out[k]) by {
        assert(out[k] == present(all)[k]);
        let i = choose|i: int| 0 <= i < all.len() && all[i] == Some(present(all)[k]);
        assert(item_result(items[i]) == Some(out[k]));
    }
}

} // verus!
