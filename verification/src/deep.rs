//! Beyond the providers: pages fetched for an excerpt, and domains that a query suggests.
use vstd::prelude::*;

use crate::letters::byte_count;
use crate::letters::byte_len;
use crate::letters::contains_chars;
use crate::letters::contains_text;
use crate::letters::law_contains_text;
use crate::letters::lowercase;
use crate::letters::to_lower;
use crate::page::fitting;
use crate::page::law_excerpt_fits;
use crate::page::law_excerpt_is_longest;
use crate::page::markdown_excerpt;
use crate::providers::squeezed;
use crate::relevance::query_terms;
use crate::relevance::terms_of;
use crate::results::ResultModel;
use crate::results::SearchResult;
use crate::text::chars_of;
use crate::text::concatenated;
use crate::text::join;
use crate::text::normalize_whitespace;
use crate::text::text_of;
use crate::text::texts;
use crate::text::trim;
use crate::text::words;
use crate::title::title_aligned;
use crate::title::title_text;
use crate::title::try_extract_html_title;

verus! {

/// How many bytes an excerpt of a page has at most.
pub const EXCERPT_BYTES: usize = 2200;

/// What became of fetching the page of a result.
#[derive(Debug)]
pub struct DeepResult {
    pub title: String,
    pub url: String,
    pub elapsed_ms: u128,
    pub markdown_excerpt: Option<String>,
    pub error: Option<String>,
}

/// The model of `DeepResult`.
pub struct DeepModel {
    pub title: Seq<char>,
    pub url: Seq<char>,
    pub elapsed_ms: u128,
    pub markdown_excerpt: Option<Seq<char>>,
    pub error: Option<Seq<char>>,
}

impl View for DeepResult {
    type V = DeepModel;

    open spec fn view(&self) -> DeepModel {
        DeepModel {
            title: self.title@,
            url: self.url@,
            elapsed_ms: self.elapsed_ms,
            markdown_excerpt: text_of(self.markdown_excerpt),
            error: text_of(self.error),
        }
    }
}

/// The models of a list of fetched pages.
pub open spec fn deep_models(deep: Seq<DeepResult>) -> Seq<DeepModel> {
    deep.map_values(|d: DeepResult| d@)
}

/// How the fetching of pages fared.
#[derive(Debug, Clone, Copy)]
pub struct DeepTelemetry {
    pub requested: usize,
    pub completed: usize,
    pub succeeded: usize,
    pub failed: usize,
    pub total_elapsed_ms: u128,
    pub average_elapsed_ms: u128,
}

/// The excerpt of a page's Markdown.
pub open spec fn excerpt(markdown: Seq<char>) -> Seq<char> {
    trim(markdown.take(fitting(markdown, EXCERPT_BYTES as int) as int))
}

/// What became of fetching the page of a result, given its Markdown or the reason why there is
/// none.
pub fn deep_result(
    result: SearchResult,
    elapsed_ms: u128,
    markdown: Result<String, String>,
) -> (res: DeepResult)
    ensures
        res@ == (DeepModel {
            title: result.title@,
            url: result.url@,
            elapsed_ms,
            markdown_excerpt: match markdown {
                Ok(content) => Some(excerpt(content@)),
                Err(_) => None,
            },
            error: match markdown {
                Ok(_) => None,
                Err(error) => Some(error@),
            },
        }),
        markdown matches Ok(content) ==> (byte_len(content@) <= 2200 ==> res@.markdown_excerpt
            == Some(trim(content@))),
        markdown matches Ok(content) ==> forall|n: int|
            0 <= n < content@.len() && byte_len(#[trigger] content@.take(n)) <= 2200 < byte_len(
                content@.take(n + 1),
            ) ==> res@.markdown_excerpt == Some(trim(content@.take(n))),
{
    proof {
        if let Ok(content) = &markdown {
            law_excerpt_of_page(content@);
        }
    }
    match markdown {
        Ok(content) => DeepResult {
            title: result.title,
            url: result.url,
            elapsed_ms,
            markdown_excerpt: Some(markdown_excerpt(content.as_str(), EXCERPT_BYTES)),
            error: None,
        },
        Err(error) => DeepResult {
            title: result.title,
            url: result.url,
            elapsed_ms,
            markdown_excerpt: None,
            error: Some(error),
        },
    }
}

/// How many pages are fetched for `found` results.
pub fn deep_count(deep_limit: usize, found: usize) -> (res: usize)
    ensures
        res == (if deep_limit < found {
            deep_limit
        } else {
            found
        }),
{
    if deep_limit < found {
        deep_limit
    } else {
        found
    }
}

/// How many of the pages were fetched without an error.
pub open spec fn successes(deep: Seq<DeepModel>) -> nat
    decreases deep.len(),
{
    if deep.len() == 0 {
        0
    } else {
        successes(deep.drop_last()) + if deep.last().error is None {
            1nat
        } else {
            0
        }
    }
}

/// How many milliseconds the pages took together.
pub open spec fn elapsed_sum(deep: Seq<DeepModel>) -> nat
    decreases deep.len(),
{
    if deep.len() == 0 {
        0
    } else {
        elapsed_sum(deep.drop_last()) + deep.last().elapsed_ms as nat
    }
}

/// Fewer pages take no longer.
proof fn lemma_elapsed_take(deep: Seq<DeepModel>, k: int)
    requires
        0 <= k <= deep.len(),
    ensures
        elapsed_sum(deep.take(k)) <= elapsed_sum(deep),
    decreases deep.len(),
{
    if k < deep.len() {
        assert(deep.drop_last().take(k) =~= deep.take(k));
        lemma_elapsed_take(deep.drop_last(), k);
    } else {
        assert(deep.take(k) =~= deep);
    }
}

/// How the fetching of pages fared.
pub fn compute_deep_telemetry(deep: &Vec<DeepResult>, total_elapsed_ms: u128) -> (res:
    DeepTelemetry)
    requires
        elapsed_sum(deep_models(deep@)) <= u128::MAX,
    ensures
        res.requested == deep@.len(),
        res.completed == deep@.len(),
        res.succeeded == successes(deep_models(deep@)),
        res.succeeded + res.failed == deep@.len(),
        res.total_elapsed_ms == total_elapsed_ms,
        res.average_elapsed_ms == (if deep@.len() == 0 {
            0
        } else {
            elapsed_sum(deep_models(deep@)) / deep@.len()
        }),
{
    let ghost all = deep_models(deep@);
    let n: usize = deep.len();
    let mut succeeded: usize = 0;
    let mut sum: u128 = 0;
    let mut i: usize = 0;
    while i < n
        invariant
            i <= n == deep@.len(),
            all == deep_models(deep@),
            elapsed_sum(all) <= u128::MAX,
            succeeded <= i,
            succeeded == successes(all.take(i as int)),
            sum == elapsed_sum(all.take(i as int)),
        decreases n - i,
    {
        let item = &deep[i];
        proof {
            assert(all.take(i + 1).drop_last() =~= all.take(i as int));
            assert(all[i as int] == item@);
            lemma_elapsed_take(all, i + 1);
        }
        if item.error.is_none() {
            succeeded += 1;
        }
        sum += item.elapsed_ms;
        i += 1;
    }
    assert(all.take(i as int) =~= all);
    let average_elapsed_ms: u128 = if n == 0 {
        0
    } else {
        sum / n as u128
    };
    DeepTelemetry {
        requested: n,
        completed: n,
        succeeded,
        failed: n - succeeded,
        total_elapsed_ms,
        average_elapsed_ms,
    }
}

// Domains that a query suggests.

/// A domain that may belong to what a query names.
pub struct CandidateDomain {
    /// The term that the domain is made of.
    pub term: String,
    pub host: String,
    pub url: String,
}

/// The model of `CandidateDomain`.
pub struct DomainModel {
    pub term: Seq<char>,
    pub host: Seq<char>,
    pub url: Seq<char>,
}

impl View for CandidateDomain {
    type V = DomainModel;

    open spec fn view(&self) -> DomainModel {
        DomainModel { term: self.term@, host: self.host@, url: self.url@ }
    }
}

/// The domain made of a term under a top-level domain.
pub open spec fn domain_of(term: Seq<char>, tld: Seq<char>) -> DomainModel {
    DomainModel { term, host: term + tld, url: "https://"@ + (term + tld) + "/"@ }
}

/// The domains that a query suggests: its first term, where it has four bytes or more, under
/// four top-level domains.
pub open spec fn suggested_domains(query: Seq<char>) -> Seq<DomainModel> {
    let terms = terms_of(words(query));
    if terms.len() == 0 || byte_len(terms[0]) < 4 {
        Seq::empty()
    } else {
        seq![
            domain_of(terms[0], ".dev"@),
            domain_of(terms[0], ".com"@),
            domain_of(terms[0], ".io"@),
            domain_of(terms[0], ".fr"@),
        ]
    }
}

/// The domain made of a term under a top-level domain.
fn make_domain(term: &str, tld: &str) -> (res: CandidateDomain)
    ensures
        res@ == domain_of(term@, tld@),
{
    let host = concatenated(term, tld);
    let mut url = concatenated("https://", host.as_str());
    url.push_str("/");
    CandidateDomain { term: term.to_owned(), host, url }
}

/// The domains that a query suggests.
pub fn candidate_domains(query: &str) -> (res: Vec<CandidateDomain>)
    ensures
        res@.map_values(|d: CandidateDomain| d@) == suggested_domains(query@),
{
    let terms = query_terms(query);
    let mut res: Vec<CandidateDomain> = Vec::new();
    if terms.len() == 0 {
        assert(res@.map_values(|d: CandidateDomain| d@) =~= suggested_domains(query@));
        return res;
    }
    let primary: &str = terms[0].as_str();
    assert(texts(terms@)[0] == primary@);
    if byte_count(primary) >= 4 {
        res.push(make_domain(primary, ".dev"));
        res.push(make_domain(primary, ".com"));
        res.push(make_domain(primary, ".io"));
        res.push(make_domain(primary, ".fr"));
    }
    assert(res@.map_values(|d: CandidateDomain| d@) =~= suggested_domains(query@));
    res
}

/// Whether a page, given its lower case, mentions the term of its domain.
pub open spec fn on_topic(term: Seq<char>, lower: Seq<char>) -> bool {
    contains_text(lower, term)
}

/// The result that the page of a domain stands for: its title, or the host where it has none.
pub open spec fn titled_result(d: DomainModel, title: Option<Seq<char>>) -> ResultModel {
    ResultModel {
        title: squeezed(
            match title {
                Some(title) => title,
                None => d.host,
            },
        ),
        url: d.url,
        snippet: "Discovered via domain fallback"@,
        source: "heuristic-domain"@,
    }
}

/// The result that the page of a domain stands for, given its lower case: one that mentions the
/// term of the domain.
pub open spec fn domain_result(d: DomainModel, body: Seq<char>, lower: Seq<char>) -> Option<
    ResultModel,
> {
    if on_topic(d.term, lower) {
        Some(titled_result(d, title_text(body, lower)))
    } else {
        None
    }
}

/// What the page of a domain gives: a result or none; or nothing can be said, because the title's
/// bytes are no characters of the page.
pub enum DomainProbe {
    Found(SearchResult),
    OffTopic,
    Misaligned,
}

/// What the page of a domain gives, given its body and the title found in it.
pub fn judge_domain(
    domain: &CandidateDomain,
    lower: &str,
    title: Option<Option<String>>,
) -> (res: DomainProbe)
    ensures
        match res {
            DomainProbe::Found(r) => on_topic(domain.term@, lower@) && title is Some && r@
                == titled_result(domain@, text_of(title->0)),
            DomainProbe::OffTopic => !on_topic(domain.term@, lower@),
            DomainProbe::Misaligned => on_topic(domain.term@, lower@) && title is None,
        },
{
    let lower_chars = chars_of(lower);
    let term = chars_of(domain.term.as_str());
    if !contains_chars(&lower_chars, &term) {
        return DomainProbe::OffTopic;
    }
    match title {
        None => DomainProbe::Misaligned,
        Some(title) => {
            let shown: String = match title {
                Some(title) => title,
                None => domain.host.clone(),
            };
            DomainProbe::Found(
                SearchResult {
                    title: normalize_whitespace(shown.as_str()),
                    url: domain.url.clone(),
                    snippet: "Discovered via domain fallback".to_owned(),
                    source: "heuristic-domain".to_owned(),
                },
            )
        },
    }
}

/// What the page of a domain gives.
pub fn probe_domain(domain: &CandidateDomain, body: &str) -> (res: DomainProbe)
    ensures
        match res {
            DomainProbe::Found(r) => title_aligned(body@, lowercase(body@)) && domain_result(
                domain@,
                body@,
                lowercase(body@),
            ) == Some(r@),
            DomainProbe::OffTopic => domain_result(domain@, body@, lowercase(body@)) is None,
            DomainProbe::Misaligned => on_topic(domain.term@, lowercase(body@)) && !title_aligned(
                body@,
                lowercase(body@),
            ),
        },
{
    let lower = to_lower(body);
    let title = try_extract_html_title(body);
    judge_domain(domain, lower.as_str(), title)
}

/// Adds a result that was discovered, and tells whether there are enough.
pub fn add_discovered(found: &mut Vec<SearchResult>, result: SearchResult, limit: usize) -> (enough:
    bool)
    ensures
        final(found)@ == old(found)@.push(result),
        enough == (old(found)@.len() + 1 >= limit),
{
    found.push(result);
    found.len() >= limit
}

// Laws.

/// The excerpt of a page takes no more bytes than it may.
pub proof fn law_excerpt_is_short(markdown: Seq<char>)
    ensures
        byte_len(excerpt(markdown)) <= EXCERPT_BYTES,
{
    law_excerpt_fits(markdown, EXCERPT_BYTES as nat);
}

/// The excerpt of a page is its Markdown, trimmed, where that has no more than 2200 bytes, and
/// otherwise so much of it, trimmed, that one more character would be too much.
pub proof fn law_excerpt_of_page(markdown: Seq<char>)
    ensures
        byte_len(markdown) <= 2200 ==> excerpt(markdown) == trim(markdown),
        forall|n: int|
            0 <= n < markdown.len() && byte_len(#[trigger] markdown.take(n)) <= 2200 < byte_len(
                markdown.take(n + 1),
            ) ==> excerpt(markdown) == trim(markdown.take(n)),
{
    law_excerpt_is_longest(markdown, EXCERPT_BYTES as nat);
}

/// Every page that was fetched without an error counts as a success, and every page for the time
/// that it took.
pub proof fn law_counted_pages(deep: Seq<DeepModel>, d: DeepModel)
    ensures
        successes(Seq::empty()) == 0,
        elapsed_sum(Seq::empty()) == 0,
        d.error is None ==> successes(deep.push(d)) == successes(deep) + 1,
        d.error is Some ==> successes(deep.push(d)) == successes(deep),
        elapsed_sum(deep.push(d)) == elapsed_sum(deep) + d.elapsed_ms,
{
    assert(deep.push(d).drop_last() =~= deep);
}

/// A query whose first term has four bytes or more suggests four domains, and any other query none.
pub proof fn law_domains_of_first_term(query: Seq<char>)
    ensures
        ({
            let terms = terms_of(words(query));
            let ds = suggested_domains(query);
            if terms.len() > 0 && byte_len(terms[0]) >= 4 {
                &&& ds.len() == 4
                &&& ds[0].host == terms[0] + ".dev"@
                &&& ds[1].host == terms[0] + ".com"@
                &&& ds[2].host == terms[0] + ".io"@
                &&& ds[3].host == terms[0] + ".fr"@
                &&& forall|i: int|
                    0 <= i < 4 ==> (#[trigger] ds[i]).url == "https://"@ + ds[i].host + "/"@
                        && ds[i].term == terms[0]
            } else {
                ds.len() == 0
            }
        }),
{
}

/// The page of a domain is a result where its lower case holds the term that the domain is made of;
/// the result leads to the domain, under the words of the page's title, or under the host where
/// there is none.
pub proof fn law_domain_result(d: DomainModel, body: Seq<char>, lower: Seq<char>)
    ensures
        domain_result(d, body, lower) is Some <==> exists|a: Seq<char>, b: Seq<char>|
            lower == #[trigger] (a + d.term + b),
        domain_result(d, body, lower) matches Some(r) ==> {
            &&& r.url == d.url
            &&& r.snippet == "Discovered via domain fallback"@
            &&& r.source == "heuristic-domain"@
            &&& title_text(body, lower) is None ==> r.title == join(words(d.host), " "@)
            &&& title_text(body, lower) matches Some(title) ==> r.title == join(words(title), " "@)
        },
{
    law_contains_text(lower, d.term);
}

/// No more pages were fetched without an error than were fetched.
pub proof fn law_successes(deep: Seq<DeepModel>)
    ensures
        successes(deep) <= deep.len(),
    decreases deep.len(),
{
    if deep.len() > 0 {
        law_successes(deep.drop_last());
    }
}

/// The domains that a query suggests have different hosts, and each is made of the query's first
/// term.
pub proof fn law_suggested_domains(query: Seq<char>)
    ensures
        ({
            let ds = suggested_domains(query);
            &&& ds.len() == 0 || ds.len() == 4
            &&& forall|i: int|
                0 <= i < ds.len() ==> (#[trigger] ds[i]).term == terms_of(words(query))[0]
            &&& forall|i: int, j: int|
                0 <= i < j < ds.len() ==> (#[trigger] ds[i]).host != (#[trigger] ds[j]).host
        }),
{
    let ds = suggested_domains(query);
    if ds.len() > 0 {
        let term = terms_of(words(query))[0];
        let n = term.len() as int;
        reveal_strlit(".dev");
        reveal_strlit(".com");
        reveal_strlit(".io");
        reveal_strlit(".fr");
        assert(ds[0].host[n + 1] == 'd');
        assert(ds[1].host[n + 1] == 'c');
        assert(ds[2].host[n + 1] == 'i');
        assert(ds[3].host[n + 1] == 'f');
    }
}

} // verus!
