//! Waiting for the search providers: what each of them answered, and when to stop waiting.
use vstd::prelude::*;

use crate::number::decimal;
use crate::number::push_decimal;
use crate::results::copy_groups;
use crate::results::distinct;
use crate::results::group_models;
use crate::results::has_enough_unique_results;
use crate::results::merge_results_round_robin;
use crate::results::merged;
use crate::results::models;
use crate::results::round_robin;
use crate::results::ResultModel;
use crate::results::SearchResult;
use crate::text::same_text;

verus! {

/// How one provider fared.
#[derive(Debug)]
pub struct ProviderMetric {
    pub name: String,
    pub elapsed_ms: u128,
    pub result_count: usize,
    pub status: String,
}

/// The model of `ProviderMetric`.
pub struct MetricModel {
    pub name: Seq<char>,
    pub elapsed_ms: u128,
    pub result_count: usize,
    pub status: Seq<char>,
}

impl View for ProviderMetric {
    type V = MetricModel;

    open spec fn view(&self) -> MetricModel {
        MetricModel {
            name: self.name@,
            elapsed_ms: self.elapsed_ms,
            result_count: self.result_count,
            status: self.status@,
        }
    }
}

/// The models of a list of metrics.
pub open spec fn metric_models(metrics: Seq<ProviderMetric>) -> Seq<MetricModel> {
    metrics.map_values(|m: ProviderMetric| m@)
}

/// How a search fared.
#[derive(Debug)]
pub struct SearchTelemetry {
    pub total_elapsed_ms: u128,
    pub merge_elapsed_ms: u128,
    pub total_candidates: usize,
    pub unique_results: usize,
    pub providers: Vec<ProviderMetric>,
}

/// The model of `SearchTelemetry`.
pub struct TelemetryModel {
    pub total_elapsed_ms: u128,
    pub merge_elapsed_ms: u128,
    pub total_candidates: usize,
    pub unique_results: usize,
    pub providers: Seq<MetricModel>,
}

impl View for SearchTelemetry {
    type V = TelemetryModel;

    open spec fn view(&self) -> TelemetryModel {
        TelemetryModel {
            total_elapsed_ms: self.total_elapsed_ms,
            merge_elapsed_ms: self.merge_elapsed_ms,
            total_candidates: self.total_candidates,
            unique_results: self.unique_results,
            providers: metric_models(self.providers@),
        }
    }
}

/// The results of a search, and how it fared.
#[derive(Debug)]
pub struct SearchRun {
    pub results: Vec<SearchResult>,
    pub telemetry: SearchTelemetry,
}

/// The model of `SearchRun`.
pub struct RunModel {
    pub results: Seq<ResultModel>,
    pub telemetry: TelemetryModel,
}

impl View for SearchRun {
    type V = RunModel;

    open spec fn view(&self) -> RunModel {
        RunModel { results: models(self.results@), telemetry: self.telemetry@ }
    }
}

/// Whether the preferred provider has answered with results.
pub open spec fn preferred_answered(metrics: Seq<MetricModel>) -> bool {
    exists|i: int|
        0 <= i < metrics.len() && (#[trigger] metrics[i]).name == "duckduckgo"@
            && metrics[i].status == "ok"@ && metrics[i].result_count > 0
}

/// Whether the answers so far are such that the others need not be waited for: there are no
/// others, or the preferred provider has answered with results.
pub fn can_fastpath_with_current_providers(
    metrics: &Vec<ProviderMetric>,
    ddg_done: bool,
    bing_done: bool,
) -> (res: bool)
    ensures
        res == ((ddg_done && bing_done) || preferred_answered(metric_models(metrics@))),
        ddg_done && bing_done ==> res,
        !(ddg_done && bing_done) ==> res == exists|i: int|
            0 <= i < metrics@.len() && (#[trigger] metrics@[i]).name@ == "duckduckgo"@
                && metrics@[i].status@ == "ok"@ && metrics@[i].result_count > 0,
{
    proof {
        let ms = metric_models(metrics@);
        assert forall|i: int| 0 <= i < metrics@.len() implies #[trigger] metrics@[i]@
            == ms[i] by {}
        if preferred_answered(ms) {
            let i = choose|i: int|
                0 <= i < ms.len() && (#[trigger] ms[i]).name == "duckduckgo"@ && ms[i].status
                    == "ok"@ && ms[i].result_count > 0;
            assert(metrics@[i].name@ == "duckduckgo"@);
        }
        if exists|i: int|
            0 <= i < metrics@.len() && (#[trigger] metrics@[i]).name@ == "duckduckgo"@
                && metrics@[i].status@ == "ok"@ && metrics@[i].result_count > 0 {
            let i = choose|i: int|
                0 <= i < metrics@.len() && (#[trigger] metrics@[i]).name@ == "duckduckgo"@
                    && metrics@[i].status@ == "ok"@ && metrics@[i].result_count > 0;
            assert(ms[i].name == "duckduckgo"@);
        }
    }
    if ddg_done && bing_done {
        return true;
    }
    let ghost ms = metric_models(metrics@);
    let mut i: usize = 0;
    while i < metrics.len()
        invariant
            i <= metrics@.len(),
            ms == metric_models(metrics@),
            forall|k: int|
                0 <= k < i ==> !((#[trigger] ms[k]).name == "duckduckgo"@ && ms[k].status == "ok"@
                    && ms[k].result_count > 0),
        decreases metrics@.len() - i,
    {
        let m = &metrics[i];
        assert(ms[i as int] == m@);
        if same_text(m.name.as_str(), "duckduckgo") && same_text(m.status.as_str(), "ok")
            && m.result_count > 0 {
            return true;
        }
        i += 1;
    }
    false
}

/// Whether a search has failed in a way that a longer wait may mend: there are no results, and
/// no provider has answered with any.
pub open spec fn worth_retrying(t: TelemetryModel) -> bool {
    &&& t.unique_results == 0
    &&& t.providers.len() > 0
    &&& forall|i: int| 0 <= i < t.providers.len() ==> (#[trigger] t.providers[i]).status != "ok"@
}

/// Whether a search has failed in a way that a longer wait may mend.
pub fn should_retry_search(telemetry: &SearchTelemetry) -> (res: bool)
    ensures
        res == worth_retrying(telemetry@),
        res <==> telemetry.unique_results == 0 && telemetry.providers@.len() > 0 && forall|i: int|
            0 <= i < telemetry.providers@.len() ==> (#[trigger] telemetry.providers@[i]).status@
                != "ok"@,
{
    proof {
        let all = telemetry@.providers;
        assert forall|i: int| 0 <= i < all.len() implies (#[trigger] all[i]).status
            == telemetry.providers@[i].status@ by {}
        assert forall|i: int| 0 <= i < all.len() implies (
        #[trigger] telemetry.providers@[i]).status@ == all[i].status by {}
    }
    if telemetry.unique_results != 0 || telemetry.providers.len() == 0 {
        return false;
    }
    let ghost ms = metric_models(telemetry.providers@);
    let mut i: usize = 0;
    while i < telemetry.providers.len()
        invariant
            i <= telemetry.providers@.len(),
            ms == metric_models(telemetry.providers@),
            ms == telemetry@.providers,
            forall|k: int| 0 <= k < i ==> (#[trigger] ms[k]).status != "ok"@,
        decreases telemetry.providers@.len() - i,
    {
        assert(ms[i as int] == telemetry.providers@[i as int]@);
        if same_text(telemetry.providers[i].status.as_str(), "ok") {
            return false;
        }
        i += 1;
    }
    true
}

/// A search provider.
#[derive(Debug, Clone, Copy, PartialEq, Eq, Structural)]
pub enum Provider {
    DuckDuckGo,
    BingRss,
}

/// The name of a provider.
pub open spec fn name_of(p: Provider) -> Seq<char> {
    match p {
        Provider::DuckDuckGo => "duckduckgo"@,
        Provider::BingRss => "bing-rss"@,
    }
}

impl Provider {
    /// The name of a provider.
    pub fn name(self) -> (res: String)
        ensures
            res@ == name_of(self),
            self == Provider::DuckDuckGo ==> res@ == "duckduckgo"@,
            self == Provider::BingRss ==> res@ == "bing-rss"@,
    {
        match self {
            Provider::DuckDuckGo => "duckduckgo".to_owned(),
            Provider::BingRss => "bing-rss".to_owned(),
        }
    }
}

/// What a provider answered, or that it did not.
pub enum ProviderAnswer {
    Results(Vec<SearchResult>),
    Failed(String),
    TimedOut,
}

/// The model of `ProviderAnswer`.
pub enum AnswerModel {
    Results(Seq<ResultModel>),
    Failed(Seq<char>),
    TimedOut,
}

impl View for ProviderAnswer {
    type V = AnswerModel;

    open spec fn view(&self) -> AnswerModel {
        match *self {
            ProviderAnswer::Results(results) => AnswerModel::Results(models(results@)),
            ProviderAnswer::Failed(error) => AnswerModel::Failed(error@),
            ProviderAnswer::TimedOut => AnswerModel::TimedOut,
        }
    }
}

/// A search that waits for its providers.
pub struct ProviderRace {
    pub limit: usize,
    pub timeout_ms: u64,
    /// The results of the providers that have answered with results, some or none.
    pub groups: Vec<Vec<SearchResult>>,
    pub metrics: Vec<ProviderMetric>,
    pub ddg_done: bool,
    pub bing_done: bool,
}

/// The model of `ProviderRace`.
pub struct RaceModel {
    pub limit: usize,
    pub timeout_ms: u64,
    pub groups: Seq<Seq<ResultModel>>,
    pub metrics: Seq<MetricModel>,
    pub ddg_done: bool,
    pub bing_done: bool,
}

impl View for ProviderRace {
    type V = RaceModel;

    open spec fn view(&self) -> RaceModel {
        RaceModel {
            limit: self.limit,
            timeout_ms: self.timeout_ms,
            groups: group_models(self.groups@),
            metrics: metric_models(self.metrics@),
            ddg_done: self.ddg_done,
            bing_done: self.bing_done,
        }
    }
}

/// The metric that an answer gives.
pub open spec fn answer_metric(
    p: Provider,
    answer: AnswerModel,
    elapsed_ms: u128,
    timeout_ms: u64,
) -> MetricModel {
    MetricModel {
        name: name_of(p),
        elapsed_ms,
        result_count: match answer {
            AnswerModel::Results(results) => results.len() as usize,
            _ => 0,
        },
        status: match answer {
            AnswerModel::Results(results) => if results.len() == 0 {
                "empty"@
            } else {
                "ok"@
            },
            AnswerModel::Failed(error) => "error: "@ + error,
            AnswerModel::TimedOut => "timeout@"@ + decimal(timeout_ms as nat) + "ms"@,
        },
    }
}

/// The metric of a provider that was not waited for.
pub open spec fn skipped_metric(p: Provider, elapsed_ms: u128) -> MetricModel {
    MetricModel { name: name_of(p), elapsed_ms, result_count: 0, status: "skipped-fastpath"@ }
}

/// How many results `groups` hold.
pub open spec fn total(groups: Seq<Seq<ResultModel>>) -> nat
    decreases groups.len(),
{
    if groups.len() == 0 {
        0
    } else {
        total(groups.drop_last()) + groups.last().len()
    }
}

impl RaceModel {
    /// Whether a provider has answered.
    pub open spec fn done(self, p: Provider) -> bool {
        match p {
            Provider::DuckDuckGo => self.ddg_done,
            Provider::BingRss => self.bing_done,
        }
    }

    /// Whether the metrics name the providers that have answered, each once, and nothing else.
    pub open spec fn accounted(self) -> bool {
        if self.ddg_done && self.bing_done {
            self.metrics.len() == 2 && ((self.metrics[0].name == name_of(Provider::DuckDuckGo)
                && self.metrics[1].name == name_of(Provider::BingRss)) || (self.metrics[0].name
                == name_of(Provider::BingRss) && self.metrics[1].name == name_of(
                Provider::DuckDuckGo,
            )))
        } else if self.ddg_done {
            self.metrics.len() == 1 && self.metrics[0].name == name_of(Provider::DuckDuckGo)
        } else if self.bing_done {
            self.metrics.len() == 1 && self.metrics[0].name == name_of(Provider::BingRss)
        } else {
            self.metrics.len() == 0
        }
    }

    /// The race once a provider has answered.
    pub open spec fn after(self, p: Provider, answer: AnswerModel, elapsed_ms: u128) -> RaceModel {
        RaceModel {
            ddg_done: self.ddg_done || p == Provider::DuckDuckGo,
            bing_done: self.bing_done || p == Provider::BingRss,
            groups: match answer {
                AnswerModel::Results(results) => self.groups.push(results),
                _ => self.groups,
            },
            metrics: self.metrics.push(answer_metric(p, answer, elapsed_ms, self.timeout_ms)),
            ..self
        }
    }

    /// Whether there are as many different results as asked for.
    pub open spec fn enough(self) -> bool {
        self.limit > 0 && distinct(round_robin(self.groups)).len() >= self.limit
    }

    /// Whether nothing more is waited for: every provider has answered, or there are results
    /// enough and the preferred provider is among those that answered with results.
    pub open spec fn over(self) -> bool {
        (self.ddg_done && self.bing_done) || (self.enough() && preferred_answered(self.metrics))
    }

    /// The race once those that have not answered are no longer waited for.
    pub open spec fn closed(self, ddg_elapsed_ms: u128, bing_elapsed_ms: u128) -> RaceModel {
        let one = if self.ddg_done {
            self.metrics
        } else {
            self.metrics.push(skipped_metric(Provider::DuckDuckGo, ddg_elapsed_ms))
        };
        let two = if self.bing_done {
            one
        } else {
            one.push(skipped_metric(Provider::BingRss, bing_elapsed_ms))
        };
        RaceModel { metrics: two, ddg_done: true, bing_done: true, ..self }
    }
}

impl ProviderRace {
    /// A search for up to `limit` results that no provider has answered yet.
    pub fn new(limit: usize, timeout_ms: u64) -> (res: ProviderRace)
        ensures
            res@ == (RaceModel {
                limit,
                timeout_ms,
                groups: Seq::empty(),
                metrics: Seq::empty(),
                ddg_done: false,
                bing_done: false,
            }),
            res@.accounted(),
    {
        let res = ProviderRace {
            limit,
            timeout_ms,
            groups: Vec::new(),
            metrics: Vec::new(),
            ddg_done: false,
            bing_done: false,
        };
        assert(res@.groups =~= Seq::empty());
        assert(res@.metrics =~= Seq::empty());
        res
    }

    /// Notes what a provider answered.
    pub fn answered(&mut self, provider: Provider, answer: ProviderAnswer, elapsed_ms: u128)
        requires
            !old(self)@.done(provider),
        ensures
            final(self)@ == old(self)@.after(provider, answer@, elapsed_ms),
            final(self).ddg_done == (old(self).ddg_done || provider == Provider::DuckDuckGo),
            final(self).bing_done == (old(self).bing_done || provider == Provider::BingRss),
            final(self)@.groups == (match answer@ {
                AnswerModel::Results(results) => old(self)@.groups.push(results),
                _ => old(self)@.groups,
            }),
            final(self)@.metrics.len() == old(self)@.metrics.len() + 1,
            final(self)@.metrics.drop_last() == old(self)@.metrics,
            ({
                let metric = final(self)@.metrics.last();
                &&& provider == Provider::DuckDuckGo ==> metric.name == "duckduckgo"@
                &&& provider == Provider::BingRss ==> metric.name == "bing-rss"@
                &&& metric.elapsed_ms == elapsed_ms
                &&& match answer@ {
                    AnswerModel::Results(results) => metric.result_count == results.len()
                        && metric.status == (if results.len() == 0 {
                        "empty"@
                    } else {
                        "ok"@
                    }),
                    AnswerModel::Failed(error) => metric.result_count == 0 && metric.status
                        == "error: "@ + error,
                    AnswerModel::TimedOut => metric.result_count == 0 && metric.status
                        == "timeout@"@ + decimal(old(self).timeout_ms as nat) + "ms"@,
                }
            }),
            old(self)@.accounted() ==> final(self)@.accounted(),
    {
        let ghost groups = group_models(self.groups@);
        let ghost metrics = metric_models(self.metrics@);
        let ghost model = answer@;
        match provider {
            Provider::DuckDuckGo => {
                self.ddg_done = true;
            },
            Provider::BingRss => {
                self.bing_done = true;
            },
        }
        let mut result_count: usize = 0;
        let mut status = String::new();
        match answer {
            ProviderAnswer::Results(results) => {
                result_count = results.len();
                if results.len() == 0 {
                    status.push_str("empty");
                } else {
                    status.push_str("ok");
                }
                assert(models(results@).len() == results@.len());
                let ghost ms = models(results@);
                self.groups.push(results);
                assert(group_models(self.groups@) =~= groups.push(ms));
            },
            ProviderAnswer::Failed(error) => {
                status.push_str("error: ");
                status.push_str(error.as_str());
            },
            ProviderAnswer::TimedOut => {
                status.push_str("timeout@");
                push_decimal(&mut status, self.timeout_ms as u128);
                status.push_str("ms");
            },
        }
        let ghost expected = answer_metric(provider, model, elapsed_ms, self.timeout_ms);
        assert(status@ =~= expected.status);
        let metric = ProviderMetric { name: provider.name(), elapsed_ms, result_count, status };
        assert(metric@ == expected);
        self.metrics.push(metric);
        assert(metric_models(self.metrics@) =~= metrics.push(expected));
    }

    /// Whether nothing more is waited for.
    pub fn is_over(&self) -> (res: bool)
        ensures
            res == self@.over(),
            res <==> self.ddg_done && self.bing_done || self.limit > 0 && distinct(
                round_robin(self@.groups),
            ).len() >= self.limit && exists|i: int|
                0 <= i < self@.metrics.len() && (#[trigger] self@.metrics[i]).name
                    == "duckduckgo"@ && self@.metrics[i].status == "ok"@
                    && self@.metrics[i].result_count > 0,
    {
        (self.ddg_done && self.bing_done) || (has_enough_unique_results(&self.groups, self.limit)
            && can_fastpath_with_current_providers(&self.metrics, self.ddg_done, self.bing_done))
    }

    /// Notes that the providers that have not answered are no longer waited for.
    pub fn close(&mut self, ddg_elapsed_ms: u128, bing_elapsed_ms: u128)
        ensures
            final(self)@ == old(self)@.closed(ddg_elapsed_ms, bing_elapsed_ms),
            final(self)@.groups == old(self)@.groups,
            final(self).ddg_done && final(self).bing_done,
            old(self)@.metrics.is_prefix_of(final(self)@.metrics),
            forall|i: int|
                old(self)@.metrics.len() <= i < final(self)@.metrics.len() ==> {
                    let metric = #[trigger] final(self)@.metrics[i];
                    &&& metric.status == "skipped-fastpath"@
                    &&& metric.result_count == 0
                    &&& metric.name == "duckduckgo"@ && !old(self).ddg_done && metric.elapsed_ms
                        == ddg_elapsed_ms || metric.name == "bing-rss"@ && !old(self).bing_done
                        && metric.elapsed_ms == bing_elapsed_ms
                },
            old(self)@.accounted() ==> final(self)@.accounted(),
    {
        let ghost start = metric_models(self.metrics@);
        if !self.ddg_done {
            let metric = ProviderMetric {
                name: Provider::DuckDuckGo.name(),
                elapsed_ms: ddg_elapsed_ms,
                result_count: 0,
                status: "skipped-fastpath".to_owned(),
            };
            self.metrics.push(metric);
            self.ddg_done = true;
            assert(metric_models(self.metrics@) =~= start.push(
                skipped_metric(Provider::DuckDuckGo, ddg_elapsed_ms),
            ));
        }
        let ghost middle = metric_models(self.metrics@);
        if !self.bing_done {
            let metric = ProviderMetric {
                name: Provider::BingRss.name(),
                elapsed_ms: bing_elapsed_ms,
                result_count: 0,
                status: "skipped-fastpath".to_owned(),
            };
            self.metrics.push(metric);
            self.bing_done = true;
            assert(metric_models(self.metrics@) =~= middle.push(
                skipped_metric(Provider::BingRss, bing_elapsed_ms),
            ));
        }
    }

    /// The results of the providers, merged.
    pub fn merge(&self) -> (res: Vec<SearchResult>)
        ensures
            models(res@) == merged(self@.groups, self.limit as nat),
    {
        merge_results_round_robin(copy_groups(&self.groups), self.limit)
    }

    /// The outcome of the search, once its results have been merged.
    pub fn finish(
        self,
        results: Vec<SearchResult>,
        merge_elapsed_ms: u128,
        total_elapsed_ms: u128,
    ) -> (res: SearchRun)
        requires
            total(self@.groups) <= usize::MAX,
        ensures
            res@ == (RunModel {
                results: models(results@),
                telemetry: TelemetryModel {
                    total_elapsed_ms,
                    merge_elapsed_ms,
                    total_candidates: total(self@.groups) as usize,
                    unique_results: results@.len() as usize,
                    providers: self@.metrics,
                },
            }),
    {
        let ghost all = group_models(self.groups@);
        let mut total_candidates: usize = 0;
        let mut i: usize = 0;
        while i < self.groups.len()
            invariant
                i <= self.groups@.len(),
                all == group_models(self.groups@),
                total(all) <= usize::MAX,
                total_candidates == total(all.take(i as int)),
            decreases self.groups@.len() - i,
        {
            proof {
                assert(all.take(i + 1).drop_last() =~= all.take(i as int));
                assert(all[i as int].len() == self.groups@[i as int]@.len());
                lemma_total_take(all, i + 1);
            }
            total_candidates += self.groups[i].len();
            i += 1;
        }
        assert(all.take(i as int) =~= all);
        let unique_results: usize = results.len();
        SearchRun {
            results,
            telemetry: SearchTelemetry {
                total_elapsed_ms,
                merge_elapsed_ms,
                total_candidates,
                unique_results,
                providers: self.metrics,
            },
        }
    }
}

/// Fewer groups hold no more results.
proof fn lemma_total_take(groups: Seq<Seq<ResultModel>>, k: int)
    requires
        0 <= k <= groups.len(),
    ensures
        total(groups.take(k)) <= total(groups),
    decreases groups.len(),
{
    if k < groups.len() {
        assert(groups.drop_last().take(k) =~= groups.take(k));
        lemma_total_take(groups.drop_last(), k);
    } else {
        assert(groups.take(k) =~= groups);
    }
}

// Laws.

/// Once a race is closed, its metrics name every provider exactly once.
pub proof fn law_every_provider_is_accounted_for(
    race: RaceModel,
    ddg_elapsed_ms: u128,
    bing_elapsed_ms: u128,
)
    requires
        race.accounted(),
    ensures
        ({
            let metrics = race.closed(ddg_elapsed_ms, bing_elapsed_ms).metrics;
            &&& metrics.len() == 2
            &&& metrics[0].name != metrics[1].name
            &&& forall|p: Provider|
                metrics[0].name == #[trigger] name_of(p) || metrics[1].name == name_of(p)
        }),
{
    reveal_strlit("duckduckgo");
    reveal_strlit("bing-rss");
    let metrics = race.closed(ddg_elapsed_ms, bing_elapsed_ms).metrics;
    assert(name_of(Provider::DuckDuckGo).len() != name_of(Provider::BingRss).len());
    assert forall|p: Provider|
        metrics[0].name == #[trigger] name_of(p) || metrics[1].name == name_of(p) by {
        match p {
            Provider::DuckDuckGo => {},
            Provider::BingRss => {},
        }
    }
}

/// A race that is over before every provider has answered has as many results as asked for.
pub proof fn law_early_end_has_enough_results(race: RaceModel)
    requires
        race.over(),
        !(race.ddg_done && race.bing_done),
    ensures
        merged(race.groups, race.limit as nat).len() == race.limit,
        preferred_answered(race.metrics),
{
}

/// The number of candidates is that of all results of all groups.
pub proof fn law_total(groups: Seq<Seq<ResultModel>>, group: Seq<ResultModel>)
    ensures
        total(Seq::empty()) == 0,
        total(groups.push(group)) == total(groups) + group.len(),
{
    assert(groups.push(group).drop_last() =~= groups);
}

/// A search that found nothing, because no provider answered with results, is worth retrying
/// once the race is closed; one that found something is not.
pub proof fn law_retry(race: RaceModel, t: TelemetryModel)
    requires
        race.ddg_done && race.bing_done,
        race.accounted(),
        t.providers == race.metrics,
    ensures
        worth_retrying(t) <==> t.unique_results == 0 && race.metrics[0].status != "ok"@
            && race.metrics[1].status != "ok"@,
{
}

} // verus!
