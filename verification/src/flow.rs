//! A search from its start to its results: what to try next, and when to give up.
use vstd::prelude::*;

use crate::race::should_retry_search;
use crate::race::worth_retrying;
use crate::race::RunModel;
use crate::race::SearchRun;
use crate::race::SearchTelemetry;
use crate::race::TelemetryModel;
use crate::relevance::filter_and_rank_relevant_results;
use crate::relevance::law_relevant;
use crate::relevance::law_relevant_only_of_more;
use crate::relevance::law_relevant_results_differ;
use crate::relevance::relevant;
use crate::relevance::score;
use crate::relevance::terms_of;
use crate::relevance::threshold;
use crate::results::all_different;
use crate::results::at_most;
use crate::results::models;
use crate::results::ResultModel;
use crate::results::SearchResult;
use crate::text::concatenated;
use crate::text::words;
use crate::urls::canonical;
use crate::urls::quoted;

verus! {

/// How many milliseconds a repeated search waits for a provider at least.
pub const SEARCH_RETRY_TIMEOUT_MS: u64 = 2500;

/// What a search is waiting for.
#[derive(Debug, Clone, Copy, PartialEq, Eq, Structural)]
pub enum Phase {
    /// The first search.
    First,
    /// The search repeated because no provider answered with results.
    Widened,
    /// The search repeated because no result was relevant.
    Repeated,
    /// The answer to the query between quotation marks.
    Targeted,
    /// The domains that the query suggests.
    Discovery,
    /// Nothing.
    Over,
}

/// Why a search failed, with its query.
#[derive(Debug)]
pub enum SearchError {
    NoResults(String),
    NoRelevantResults(String),
}

/// The model of `SearchError`.
pub enum SearchErrorModel {
    NoResults(Seq<char>),
    NoRelevantResults(Seq<char>),
}

impl View for SearchError {
    type V = SearchErrorModel;

    open spec fn view(&self) -> SearchErrorModel {
        match *self {
            SearchError::NoResults(query) => SearchErrorModel::NoResults(query@),
            SearchError::NoRelevantResults(query) => SearchErrorModel::NoRelevantResults(query@),
        }
    }
}

/// What a search asks for next, or how it ends.
#[derive(Debug)]
pub enum SearchAction {
    /// Ask the providers, and wait that many milliseconds for each.
    Search { timeout_ms: u64 },
    /// Ask the preferred provider another query.
    Ask { query: String },
    /// Look for domains that the query suggests.
    Discover,
    /// End with these results.
    Finish { results: Vec<SearchResult>, telemetry: SearchTelemetry },
    /// End without results.
    Fail(SearchError),
}

/// The model of `SearchAction`.
pub enum ActionModel {
    Search { timeout_ms: u64 },
    Ask { query: Seq<char> },
    Discover,
    Finish { results: Seq<ResultModel>, telemetry: TelemetryModel },
    Fail(SearchErrorModel),
}

impl View for SearchAction {
    type V = ActionModel;

    open spec fn view(&self) -> ActionModel {
        match *self {
            SearchAction::Search { timeout_ms } => ActionModel::Search { timeout_ms },
            SearchAction::Ask { query } => ActionModel::Ask { query: query@ },
            SearchAction::Discover => ActionModel::Discover,
            SearchAction::Finish { results, telemetry } => ActionModel::Finish {
                results: models(results@),
                telemetry: telemetry@,
            },
            SearchAction::Fail(error) => ActionModel::Fail(error@),
        }
    }
}

/// A search on its way.
pub struct SearchFlow {
    pub query: String,
    pub limit: usize,
    pub timeout_ms: u64,
    pub phase: Phase,
    /// The results found so far, none of them relevant.
    pub results: Vec<SearchResult>,
    /// How the search that found them fared.
    pub telemetry: Option<SearchTelemetry>,
}

/// The model of `SearchFlow`.
pub struct FlowModel {
    pub query: Seq<char>,
    pub limit: usize,
    pub timeout_ms: u64,
    pub phase: Phase,
    pub results: Seq<ResultModel>,
    pub telemetry: Option<TelemetryModel>,
}

impl View for SearchFlow {
    type V = FlowModel;

    open spec fn view(&self) -> FlowModel {
        FlowModel {
            query: self.query@,
            limit: self.limit,
            timeout_ms: self.timeout_ms,
            phase: self.phase,
            results: models(self.results@),
            telemetry: match self.telemetry {
                Some(t) => Some(t@),
                None => None,
            },
        }
    }
}

/// How long a repeated search waits for a provider.
pub open spec fn retry_timeout(timeout_ms: u64) -> u64 {
    if timeout_ms < SEARCH_RETRY_TIMEOUT_MS {
        SEARCH_RETRY_TIMEOUT_MS
    } else {
        timeout_ms
    }
}

impl FlowModel {
    /// A search that has found nothing yet.
    pub open spec fn start(query: Seq<char>, limit: usize, timeout_ms: u64) -> FlowModel {
        FlowModel {
            query,
            limit,
            timeout_ms,
            phase: Phase::First,
            results: Seq::empty(),
            telemetry: None,
        }
    }

    /// Whether a search that goes on after it has found results knows how it found them, and none
    /// of them is relevant.
    pub open spec fn wf(self) -> bool {
        self.phase == Phase::Repeated || self.phase == Phase::Targeted || self.phase
            == Phase::Discovery ==> self.telemetry is Some && self.relevant_of(self.results).len()
            == 0
    }

    /// Whether the search is waiting for the providers.
    pub open spec fn searching(self) -> bool {
        self.phase == Phase::First || self.phase == Phase::Widened || self.phase == Phase::Repeated
    }

    /// The search once it has ended.
    pub open spec fn over(self) -> FlowModel {
        FlowModel { phase: Phase::Over, results: Seq::empty(), telemetry: None, ..self }
    }

    /// Those of `results` that are worth showing.
    pub open spec fn relevant_of(self, results: Seq<ResultModel>) -> Seq<ResultModel> {
        relevant(results, self.query, self.limit as nat)
    }

    /// The search, and what it does, once the providers have been asked without more to try
    /// for an answer.
    pub open spec fn judged(self, run: RunModel) -> (FlowModel, ActionModel) {
        if run.results.len() == 0 {
            (self.over(), ActionModel::Fail(SearchErrorModel::NoResults(self.query)))
        } else if self.relevant_of(run.results).len() == 0 {
            (
                FlowModel {
                    phase: Phase::Repeated,
                    results: run.results,
                    telemetry: Some(run.telemetry),
                    ..self
                },
                ActionModel::Search { timeout_ms: retry_timeout(self.timeout_ms) },
            )
        } else {
            (
                self.over(),
                ActionModel::Finish {
                    results: self.relevant_of(run.results),
                    telemetry: run.telemetry,
                },
            )
        }
    }

    /// The search, and what it does, once the providers have been asked.
    pub open spec fn after_search(self, run: RunModel) -> (FlowModel, ActionModel) {
        if self.phase == Phase::First && run.results.len() == 0 && worth_retrying(run.telemetry) {
            (
                FlowModel { phase: Phase::Widened, ..self },
                ActionModel::Search { timeout_ms: retry_timeout(self.timeout_ms) },
            )
        } else if self.phase != Phase::Repeated {
            self.judged(run)
        } else if self.relevant_of(run.results).len() > 0 {
            (
                self.over(),
                ActionModel::Finish {
                    results: self.relevant_of(run.results),
                    telemetry: run.telemetry,
                },
            )
        } else {
            (
                FlowModel { phase: Phase::Targeted, ..self },
                ActionModel::Ask { query: "\""@ + self.query + "\""@ },
            )
        }
    }

    /// The search, and what it does, once the query between quotation marks has been asked.
    pub open spec fn after_ask(self, answer: Option<Seq<ResultModel>>) -> (FlowModel, ActionModel) {
        let all = match answer {
            Some(extra) => self.results + extra,
            None => self.results,
        };
        if all.len() > self.results.len() && self.relevant_of(all).len() > 0 {
            (
                self.over(),
                ActionModel::Finish {
                    results: self.relevant_of(all),
                    telemetry: self.telemetry->0,
                },
            )
        } else {
            (FlowModel { phase: Phase::Discovery, results: all, ..self }, ActionModel::Discover)
        }
    }

    /// The search, and what it does, once domains have been looked for.
    pub open spec fn after_discovery(self, found: Seq<ResultModel>) -> (FlowModel, ActionModel) {
        if found.len() > 0 {
            (
                self.over(),
                ActionModel::Finish {
                    results: at_most(found, self.limit as nat),
                    telemetry: self.telemetry->0,
                },
            )
        } else {
            (self.over(), ActionModel::Fail(SearchErrorModel::NoRelevantResults(self.query)))
        }
    }
}

/// The model of an optional list of results.
pub open spec fn answer_models(answer: Option<Vec<SearchResult>>) -> Option<Seq<ResultModel>> {
    match answer {
        Some(results) => Some(models(results@)),
        None => None,
    }
}

/// How long a repeated search waits for a provider.
fn longer_timeout(timeout_ms: u64) -> (res: u64)
    ensures
        res == retry_timeout(timeout_ms),
{
    if timeout_ms < SEARCH_RETRY_TIMEOUT_MS {
        SEARCH_RETRY_TIMEOUT_MS
    } else {
        timeout_ms
    }
}

impl SearchFlow {
    /// A search that has found nothing yet, and what it asks for first.
    pub fn start(query: &str, limit: usize, timeout_ms: u64) -> (res: (SearchFlow, SearchAction))
        ensures
            res.0@ == FlowModel::start(query@, limit, timeout_ms),
            res.0@.wf(),
            res.0.query@ == query@ && res.0.limit == limit && res.0.timeout_ms == timeout_ms,
            res.0.phase == Phase::First && res.0.results@.len() == 0 && res.0.telemetry is None,
            res.1@ == (ActionModel::Search { timeout_ms }),
    {
        let flow = SearchFlow {
            query: query.to_owned(),
            limit,
            timeout_ms,
            phase: Phase::First,
            results: Vec::new(),
            telemetry: None,
        };
        assert(flow@.results =~= Seq::empty());
        (flow, SearchAction::Search { timeout_ms })
    }

    /// Ends the search.
    fn end(&mut self)
        ensures
            final(self)@ == old(self)@.over(),
    {
        self.phase = Phase::Over;
        self.results = Vec::new();
        self.telemetry = None;
        assert(self@.results =~= Seq::empty());
    }

    /// Notes the outcome of asking the providers, and tells what to do next.
    pub fn searched(&mut self, run: SearchRun) -> (res: SearchAction)
        requires
            old(self)@.wf(),
            old(self)@.searching(),
        ensures
            final(self)@.wf(),
            (final(self)@, res@) == old(self)@.after_search(run@),
    {
        assert(models(run.results@).len() == run.results@.len());
        if self.phase == Phase::First && run.results.len() == 0 && should_retry_search(
            &run.telemetry,
        ) {
            self.phase = Phase::Widened;
            return SearchAction::Search { timeout_ms: longer_timeout(self.timeout_ms) };
        }
        if self.phase != Phase::Repeated && run.results.len() == 0 {
            let query = self.query.clone();
            self.end();
            return SearchAction::Fail(SearchError::NoResults(query));
        }
        let relevant_results = filter_and_rank_relevant_results(
            &run.results,
            self.query.as_str(),
            self.limit,
        );
        assert(models(relevant_results@).len() == relevant_results@.len());
        if relevant_results.len() > 0 {
            self.end();
            return SearchAction::Finish { results: relevant_results, telemetry: run.telemetry };
        }
        if self.phase != Phase::Repeated {
            self.phase = Phase::Repeated;
            self.results = run.results;
            self.telemetry = Some(run.telemetry);
            return SearchAction::Search { timeout_ms: longer_timeout(self.timeout_ms) };
        }
        self.phase = Phase::Targeted;
        SearchAction::Ask { query: quoted(self.query.as_str()) }
    }

    /// Notes the answer to the query between quotation marks, `None` where there was none, and
    /// tells what to do next.
    pub fn asked(&mut self, answer: Option<Vec<SearchResult>>) -> (res: SearchAction)
        requires
            old(self)@.wf(),
            old(self)@.phase == Phase::Targeted,
        ensures
            final(self)@.wf(),
            (final(self)@, res@) == old(self)@.after_ask(answer_models(answer)),
    {
        let ghost before = models(self.results@);
        if let Some(extra) = answer {
            let mut extra = extra;
            let ghost added = models(extra@);
            if extra.len() > 0 {
                self.results.append(&mut extra);
                assert(models(self.results@) =~= before + added);
                let rescued = filter_and_rank_relevant_results(
                    &self.results,
                    self.query.as_str(),
                    self.limit,
                );
                assert(models(rescued@).len() == rescued@.len());
                if rescued.len() > 0 {
                    if let Some(telemetry) = self.telemetry.take() {
                        self.end();
                        return SearchAction::Finish { results: rescued, telemetry };
                    }
                }
            } else {
                assert(before + added =~= before);
            }
        }
        self.phase = Phase::Discovery;
        SearchAction::Discover
    }

    /// Notes the domains that were found, and tells how the search ends.
    pub fn discovered(&mut self, found: Vec<SearchResult>) -> (res: SearchAction)
        requires
            old(self)@.wf(),
            old(self)@.phase == Phase::Discovery,
        ensures
            final(self)@.wf(),
            (final(self)@, res@) == old(self)@.after_discovery(models(found@)),
    {
        let mut found = found;
        let ghost all = models(found@);
        if found.len() > 0 {
            if found.len() > self.limit {
                found.truncate(self.limit);
            }
            assert(models(found@) =~= at_most(all, self.limit as nat));
            if let Some(telemetry) = self.telemetry.take() {
                self.end();
                return SearchAction::Finish { results: found, telemetry };
            }
        }
        let query = self.query.clone();
        self.end();
        SearchAction::Fail(SearchError::NoRelevantResults(query))
    }
}

/// What a failed search is reported as.
pub open spec fn failure_text(error: SearchErrorModel) -> Seq<char> {
    match error {
        SearchErrorModel::NoResults(query) => "No search results returned for query: "@ + query,
        SearchErrorModel::NoRelevantResults(query) =>
            "No relevant search results returned for query: "@ + query,
    }
}

impl SearchError {
    /// What a failed search is reported as.
    pub fn message(&self) -> (res: String)
        ensures
            res@ == failure_text(self@),
            match *self {
                SearchError::NoResults(query) => res@ == "No search results returned for query: "@
                    + query@,
                SearchError::NoRelevantResults(query) => res@
                    == "No relevant search results returned for query: "@ + query@,
            },
    {
        match self {
            SearchError::NoResults(query) => concatenated(
                "No search results returned for query: ",
                query.as_str(),
            ),
            SearchError::NoRelevantResults(query) => concatenated(
                "No relevant search results returned for query: ",
                query.as_str(),
            ),
        }
    }
}

// Laws.

/// A repeated search waits as long as the first, and two and a half seconds at least.
pub proof fn law_retry_timeout(timeout_ms: u64)
    ensures
        timeout_ms <= 2500 ==> retry_timeout(timeout_ms) == 2500,
        timeout_ms >= 2500 ==> retry_timeout(timeout_ms) == timeout_ms,
{
}

/// What follows from asking the providers. A first search that found nothing, because none of them
/// answered with results, is repeated with a longer wait. Any other that found nothing fails. One
/// that found relevant results ends with these. One whose results are not relevant is repeated
/// once, with a longer wait; and if that brings nothing relevant either, the preferred provider is
/// asked for the query between quotation marks, and what the first search found is kept.
pub proof fn law_after_search(flow: FlowModel, run: RunModel)
    requires
        flow.searching(),
    ensures
        ({
            let (next, action) = flow.after_search(run);
            let found = relevant(run.results, flow.query, flow.limit as nat);
            let wait = if flow.timeout_ms < 2500 {
                2500u64
            } else {
                flow.timeout_ms
            };
            let unanswered = run.telemetry.unique_results == 0 && run.telemetry.providers.len() > 0
                && forall|i: int|
                0 <= i < run.telemetry.providers.len() ==> (
                #[trigger] run.telemetry.providers[i]).status != "ok"@;
            &&& next.query == flow.query && next.limit == flow.limit && next.timeout_ms
                == flow.timeout_ms
            &&& if flow.phase == Phase::First && run.results.len() == 0 && unanswered {
                &&& action == (ActionModel::Search { timeout_ms: wait })
                &&& next.phase == Phase::Widened
            } else if flow.phase != Phase::Repeated && run.results.len() == 0 {
                &&& action == ActionModel::Fail(SearchErrorModel::NoResults(flow.query))
                &&& next.phase == Phase::Over
            } else if found.len() > 0 {
                &&& action == (ActionModel::Finish { results: found, telemetry: run.telemetry })
                &&& next.phase == Phase::Over
            } else if flow.phase != Phase::Repeated {
                &&& action == (ActionModel::Search { timeout_ms: wait })
                &&& next.phase == Phase::Repeated
                &&& next.results == run.results
                &&& next.telemetry == Some(run.telemetry)
            } else {
                &&& action == (ActionModel::Ask { query: "\""@ + flow.query + "\""@ })
                &&& next.phase == Phase::Targeted
                &&& next.results == flow.results
                &&& next.telemetry == flow.telemetry
            }
        }),
{
}

/// What follows from the answer to the query between quotation marks: where it brings relevant
/// results to those found before, the search ends with these; otherwise domains are looked for.
pub proof fn law_after_ask(flow: FlowModel, answer: Option<Seq<ResultModel>>)
    requires
        flow.phase == Phase::Targeted,
        flow.wf(),
    ensures
        ({
            let (next, action) = flow.after_ask(answer);
            if answer is Some && (answer->0).len() > 0 && relevant(
                flow.results + answer->0,
                flow.query,
                flow.limit as nat,
            ).len() > 0 {
                &&& action == (ActionModel::Finish {
                    results: relevant(flow.results + answer->0, flow.query, flow.limit as nat),
                    telemetry: flow.telemetry->0,
                })
                &&& next.phase == Phase::Over
            } else {
                &&& action is Discover
                &&& next.phase == Phase::Discovery
                &&& next.query == flow.query && next.limit == flow.limit && next.telemetry
                    == flow.telemetry
            }
        }),
{
}

/// What follows from looking for domains: the first of those found, as many as asked for, are the
/// results; where none was found, the search fails.
pub proof fn law_after_discovery(flow: FlowModel, found: Seq<ResultModel>)
    requires
        flow.phase == Phase::Discovery,
        flow.wf(),
    ensures
        ({
            let (next, action) = flow.after_discovery(found);
            &&& next.phase == Phase::Over
            &&& found.len() == 0 ==> action == ActionModel::Fail(
                SearchErrorModel::NoRelevantResults(flow.query),
            )
            &&& 0 < found.len() <= flow.limit ==> action == (ActionModel::Finish {
                results: found,
                telemetry: flow.telemetry->0,
            })
            &&& found.len() > flow.limit ==> action == (ActionModel::Finish {
                results: found.take(flow.limit as int),
                telemetry: flow.telemetry->0,
            })
        }),
{
}

/// How far a search has come.
pub open spec fn progress(phase: Phase) -> nat {
    match phase {
        Phase::First => 0,
        Phase::Widened => 1,
        Phase::Repeated => 2,
        Phase::Targeted => 3,
        Phase::Discovery => 4,
        Phase::Over => 5,
    }
}

/// Whether a search that does `action` in the phase `phase` waits for what it asked for, or has
/// ended.
pub open spec fn awaited(phase: Phase, action: ActionModel) -> bool {
    match action {
        ActionModel::Search { .. } => phase == Phase::First || phase == Phase::Widened || phase
            == Phase::Repeated,
        ActionModel::Ask { .. } => phase == Phase::Targeted,
        ActionModel::Discover => phase == Phase::Discovery,
        ActionModel::Finish { .. } | ActionModel::Fail(_) => phase == Phase::Over,
    }
}

/// Whether an action, where it ends the search with results, ends it with some, and no more than
/// `limit`.
pub open spec fn shows_results(action: ActionModel, limit: nat) -> bool {
    action matches ActionModel::Finish { results, .. } ==> 0 < results.len() <= limit
}

/// Asking the providers brings a search further, so that it ends after five replies at most; it
/// then waits for what it asks for, or has ended; and where it has ended with results, it shows
/// some, and no more than asked for.
pub proof fn law_search_advances(flow: FlowModel, run: RunModel)
    requires
        flow.searching(),
    ensures
        ({
            let (next, action) = flow.after_search(run);
            &&& progress(flow.phase) < progress(next.phase)
            &&& awaited(next.phase, action)
            &&& shows_results(action, flow.limit as nat)
            &&& next.query == flow.query && next.limit == flow.limit
        }),
{
    law_relevant(run.results, flow.query, flow.limit as nat);
}

/// Asking the query between quotation marks brings a search further, as asking the providers
/// does.
pub proof fn law_ask_advances(flow: FlowModel, answer: Option<Seq<ResultModel>>)
    requires
        flow.phase == Phase::Targeted,
    ensures
        ({
            let (next, action) = flow.after_ask(answer);
            &&& progress(flow.phase) < progress(next.phase)
            &&& awaited(next.phase, action)
            &&& shows_results(action, flow.limit as nat)
            &&& next.query == flow.query && next.limit == flow.limit
        }),
{
    let all = match answer {
        Some(extra) => flow.results + extra,
        None => flow.results,
    };
    law_relevant(all, flow.query, flow.limit as nat);
}

/// Looking for domains ends a search. It shows what was found, where that is anything, up to as
/// many results as asked for.
pub proof fn law_discovery_ends(flow: FlowModel, found: Seq<ResultModel>)
    requires
        flow.phase == Phase::Discovery,
        flow.limit > 0,
    ensures
        ({
            let (next, action) = flow.after_discovery(found);
            &&& next.phase == Phase::Over
            &&& awaited(next.phase, action)
            &&& shows_results(action, flow.limit as nat)
            &&& action is Finish <==> found.len() > 0
        }),
{
}

/// What a search shows of the results that the providers found is relevant to its query.
pub proof fn law_shown_results_are_relevant(flow: FlowModel, run: RunModel, k: int)
    requires
        flow.searching(),
    ensures
        ({
            let terms = terms_of(words(flow.query));
            flow.after_search(run).1 matches ActionModel::Finish { results, .. } ==> 0 <= k
                < results.len() ==> run.results.contains(results[k]) && score(results[k], terms)
                >= threshold(terms.len())
        }),
{
    law_relevant(run.results, flow.query, flow.limit as nat);
}

/// What a search shows once it has asked the query between quotation marks is relevant to its
/// query, too, and comes from the answer.
pub proof fn law_rescued_results_are_relevant(
    flow: FlowModel,
    answer: Option<Seq<ResultModel>>,
    k: int,
)
    requires
        flow.phase == Phase::Targeted,
        flow.wf(),
    ensures
        ({
            let terms = terms_of(words(flow.query));
            flow.after_ask(answer).1 matches ActionModel::Finish { results, .. } ==> 0 <= k
                < results.len() ==> answer is Some && (answer->0).contains(results[k]) && score(
                results[k],
                terms,
            ) >= threshold(terms.len())
        }),
{
    if let Some(extra) = answer {
        if flow.limit > 0 {
            law_relevant_only_of_more(flow.results, extra, flow.query, flow.limit as nat);
            law_relevant(extra, flow.query, flow.limit as nat);
        }
    }
}

/// What a search shows leads to different places, where the results that the providers found do.
pub proof fn law_shown_results_differ(flow: FlowModel, run: RunModel)
    requires
        flow.searching(),
        all_different(run.results),
    ensures
        flow.after_search(run).1 matches ActionModel::Finish { results, .. } ==> all_different(
            results,
        ),
{
    law_relevant_results_differ(run.results, flow.query, flow.limit as nat);
}

/// What a search shows once it has asked the query between quotation marks leads to different
/// places, where the answer does: of the results found before, it shows none.
pub proof fn law_rescued_results_differ(flow: FlowModel, answer: Option<Seq<ResultModel>>)
    requires
        flow.phase == Phase::Targeted,
        flow.wf(),
        answer matches Some(extra) ==> all_different(extra),
    ensures
        flow.after_ask(answer).1 matches ActionModel::Finish { results, .. } ==> answer is Some
            && results == flow.relevant_of(answer->0) && all_different(results),
{
    if let Some(extra) = answer {
        if flow.limit > 0 {
            law_relevant_only_of_more(flow.results, extra, flow.query, flow.limit as nat);
            law_relevant_results_differ(extra, flow.query, flow.limit as nat);
        }
    }
}

/// What a search shows of the domains that were found leads to different places, where they do.
pub proof fn law_discovered_results_differ(flow: FlowModel, found: Seq<ResultModel>)
    requires
        flow.phase == Phase::Discovery,
        all_different(found),
    ensures
        flow.after_discovery(found).1 matches ActionModel::Finish { results, .. } ==> all_different(
            results,
        ),
{
    let out = at_most(found, flow.limit as nat);
    assert forall|i: int, j: int| 0 <= i < j < out.len() implies canonical((#[trigger] out[i]).url)
        != canonical((#[trigger] out[j]).url) by {
        assert(out[i] == found[i]);
        assert(out[j] == found[j]);
    }
}

} // verus!
