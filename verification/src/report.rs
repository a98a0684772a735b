//! What a search prints: its results for a person or for a language model, and how it fared.
use vstd::prelude::*;

use crate::deep::deep_models;
use crate::deep::DeepModel;
use crate::deep::DeepResult;
use crate::deep::DeepTelemetry;
use crate::flow::ActionModel;
use crate::flow::Phase;
use crate::flow::SearchAction;
use crate::letters::find_char;
use crate::letters::first_of;
use crate::letters::lemma_first_of;
use crate::number::decimal;
use crate::number::push_decimal;
use crate::race::metric_models;
use crate::race::name_of;
use crate::race::AnswerModel;
use crate::race::MetricModel;
use crate::race::Provider;
use crate::race::ProviderAnswer;
use crate::race::ProviderMetric;
use crate::race::SearchTelemetry;
use crate::race::TelemetryModel;
use crate::results::models;
use crate::results::ResultModel;
use crate::results::SearchResult;
use crate::text::chars_of;
use crate::text::push_chars;
use crate::text::text_of;

verus! {

/// How many lines of an excerpt are shown to a person at most.
pub const EXCERPT_LINES: usize = 20;

// Lines.

/// A line that shows a text behind a label.
pub open spec fn field(label: Seq<char>, value: Seq<char>) -> Seq<char> {
    label + value + "\n"@
}

/// A line that shows a number behind a label and before a unit.
pub open spec fn counted(label: Seq<char>, n: nat, unit: Seq<char>) -> Seq<char> {
    label + decimal(n) + unit + "\n"@
}

fn push_field(out: &mut String, label: &str, value: &str)
    ensures
        final(out)@ == old(out)@ + field(label@, value@),
{
    out.push_str(label);
    out.push_str(value);
    out.push_str("\n");
    assert(out@ =~= old(out)@ + field(label@, value@));
}

fn push_counted(out: &mut String, label: &str, n: u128, unit: &str)
    ensures
        final(out)@ == old(out)@ + counted(label@, n as nat, unit@),
{
    out.push_str(label);
    push_decimal(out, n);
    out.push_str(unit);
    out.push_str("\n");
    assert(out@ =~= old(out)@ + counted(label@, n as nat, unit@));
}

/// The line of a provider.
pub open spec fn provider_line(label: Seq<char>, m: MetricModel) -> Seq<char> {
    label + m.name + " | status="@ + m.status + " | "@ + decimal(m.elapsed_ms as nat) + " ms | "@
        + decimal(m.result_count as nat) + " results\n"@
}

/// The lines of the providers.
pub open spec fn provider_lines(label: Seq<char>, ms: Seq<MetricModel>) -> Seq<char>
    decreases ms.len(),
{
    if ms.len() == 0 {
        Seq::empty()
    } else {
        provider_lines(label, ms.drop_last()) + provider_line(label, ms.last())
    }
}

fn push_provider_line(out: &mut String, label: &str, m: &ProviderMetric)
    ensures
        final(out)@ == old(out)@ + provider_line(label@, m@),
{
    out.push_str(label);
    out.push_str(m.name.as_str());
    out.push_str(" | status=");
    out.push_str(m.status.as_str());
    out.push_str(" | ");
    push_decimal(out, m.elapsed_ms);
    out.push_str(" ms | ");
    push_decimal(out, m.result_count as u128);
    out.push_str(" results\n");
    assert(out@ =~= old(out)@ + provider_line(label@, m@));
}

fn push_provider_lines(out: &mut String, label: &str, ms: &Vec<ProviderMetric>)
    ensures
        final(out)@ == old(out)@ + provider_lines(label@, metric_models(ms@)),
{
    let ghost start = out@;
    let ghost all = metric_models(ms@);
    assert(all.take(0) =~= Seq::empty());
    assert(start + Seq::empty() =~= start);
    for i in 0..ms.len()
        invariant
            all == metric_models(ms@),
            out@ == start + provider_lines(label@, all.take(i as int)),
    {
        push_provider_line(out, label, &ms[i]);
        proof {
            assert(all.take(i + 1).drop_last() =~= all.take(i as int));
            assert(all.take(i + 1).last() == ms@[i as int]@);
            assert(out@ =~= start + provider_lines(label@, all.take(i + 1)));
        }
    }
    assert(all.take(ms@.len() as int) =~= all);
}

// For a language model.

/// A result, the `n`-th of its list.
pub open spec fn llm_result(n: nat, r: ResultModel) -> Seq<char> {
    counted("## Result "@, n, ""@) + field("Title: "@, r.title) + field("URL: "@, r.url) + field(
        "Source: "@,
        r.source,
    ) + (if r.snippet.len() == 0 {
        Seq::empty()
    } else {
        field("Snippet: "@, r.snippet)
    }) + "\n"@
}

/// The results.
pub open spec fn llm_results(rs: Seq<ResultModel>) -> Seq<char>
    decreases rs.len(),
{
    if rs.len() == 0 {
        Seq::empty()
    } else {
        llm_results(rs.drop_last()) + llm_result(rs.len(), rs.last())
    }
}

/// What came of fetching a page, the `n`-th of its list.
pub open spec fn llm_page(n: nat, d: DeepModel) -> Seq<char> {
    counted("## Page "@, n, ""@) + field("Title: "@, d.title) + field("URL: "@, d.url) + counted(
        "Elapsed: "@,
        d.elapsed_ms as nat,
        " ms"@,
    ) + (match (d.error, d.markdown_excerpt) {
        (Some(error), _) => field("Error: "@, error),
        (None, Some(excerpt)) => "Excerpt:\n"@ + field(""@, excerpt),
        (None, None) => Seq::empty(),
    }) + "\n"@
}

/// What came of fetching the pages.
pub open spec fn llm_pages(ds: Seq<DeepModel>) -> Seq<char>
    decreases ds.len(),
{
    if ds.len() == 0 {
        Seq::empty()
    } else {
        llm_pages(ds.drop_last()) + llm_page(ds.len(), ds.last())
    }
}

/// How the fetching of the pages fared.
pub open spec fn llm_deep_line(t: DeepTelemetry) -> Seq<char> {
    "Deep fetch: "@ + decimal(t.completed as nat) + " pages | ok="@ + decimal(t.succeeded as nat)
        + " | failed="@ + decimal(t.failed as nat) + " | total="@ + decimal(
        t.total_elapsed_ms as nat,
    ) + " ms | avg="@ + decimal(t.average_elapsed_ms as nat) + " ms/page\n"@
}

/// What a search prints for a language model.
pub open spec fn llm_report(
    query: Seq<char>,
    results: Seq<ResultModel>,
    deep: Option<Seq<DeepModel>>,
    telemetry: TelemetryModel,
    deep_telemetry: Option<DeepTelemetry>,
) -> Seq<char> {
    "# Search Results\n"@ + field("Query: "@, query) + counted("Returned: "@, results.len(), ""@)
        + counted("Search time: "@, telemetry.total_elapsed_ms as nat, " ms"@) + "\n"@
        + llm_results(results) + (match deep {
        Some(ds) => "# Deep Excerpts\n\n"@ + llm_pages(ds),
        None => Seq::empty(),
    }) + "# Telemetry\n"@ + counted("Candidates: "@, telemetry.total_candidates as nat, ""@)
        + counted("Unique results: "@, telemetry.unique_results as nat, ""@) + counted(
        "Merge time: "@,
        telemetry.merge_elapsed_ms as nat,
        " ms"@,
    ) + provider_lines("Provider: "@, telemetry.providers) + (match deep_telemetry {
        Some(t) => llm_deep_line(t),
        None => Seq::empty(),
    })
}

fn push_llm_result(out: &mut String, n: usize, r: &SearchResult)
    ensures
        final(out)@ == old(out)@ + llm_result(n as nat, r@),
{
    push_counted(out, "## Result ", n as u128, "");
    push_field(out, "Title: ", r.title.as_str());
    push_field(out, "URL: ", r.url.as_str());
    push_field(out, "Source: ", r.source.as_str());
    if !r.snippet.as_str().is_empty() {
        push_field(out, "Snippet: ", r.snippet.as_str());
    }
    out.push_str("\n");
    assert(out@ =~= old(out)@ + llm_result(n as nat, r@));
}

fn push_llm_results(out: &mut String, rs: &Vec<SearchResult>)
    ensures
        final(out)@ == old(out)@ + llm_results(models(rs@)),
{
    let ghost start = out@;
    let ghost all = models(rs@);
    assert(all.take(0) =~= Seq::empty());
    assert(start + Seq::empty() =~= start);
    for i in 0..rs.len()
        invariant
            all == models(rs@),
            out@ == start + llm_results(all.take(i as int)),
    {
        push_llm_result(out, i + 1, &rs[i]);
        proof {
            assert(all.take(i + 1).drop_last() =~= all.take(i as int));
            assert(all.take(i + 1).last() == rs@[i as int]@);
            assert(out@ =~= start + llm_results(all.take(i + 1)));
        }
    }
    assert(all.take(rs@.len() as int) =~= all);
}

fn push_llm_page(out: &mut String, n: usize, d: &DeepResult)
    ensures
        final(out)@ == old(out)@ + llm_page(n as nat, d@),
{
    push_counted(out, "## Page ", n as u128, "");
    push_field(out, "Title: ", d.title.as_str());
    push_field(out, "URL: ", d.url.as_str());
    push_counted(out, "Elapsed: ", d.elapsed_ms, " ms");
    if let Some(error) = &d.error {
        push_field(out, "Error: ", error.as_str());
    } else if let Some(excerpt) = &d.markdown_excerpt {
        out.push_str("Excerpt:\n");
        push_field(out, "", excerpt.as_str());
    }
    out.push_str("\n");
    assert(out@ =~= old(out)@ + llm_page(n as nat, d@));
}

fn push_llm_pages(out: &mut String, ds: &Vec<DeepResult>)
    ensures
        final(out)@ == old(out)@ + llm_pages(deep_models(ds@)),
{
    let ghost start = out@;
    let ghost all = deep_models(ds@);
    assert(all.take(0) =~= Seq::empty());
    assert(start + Seq::empty() =~= start);
    for i in 0..ds.len()
        invariant
            all == deep_models(ds@),
            out@ == start + llm_pages(all.take(i as int)),
    {
        push_llm_page(out, i + 1, &ds[i]);
        proof {
            assert(all.take(i + 1).drop_last() =~= all.take(i as int));
            assert(all.take(i + 1).last() == ds@[i as int]@);
            assert(out@ =~= start + llm_pages(all.take(i + 1)));
        }
    }
    assert(all.take(ds@.len() as int) =~= all);
}

fn push_llm_deep_line(out: &mut String, t: &DeepTelemetry)
    ensures
        final(out)@ == old(out)@ + llm_deep_line(*t),
{
    out.push_str("Deep fetch: ");
    push_decimal(out, t.completed as u128);
    out.push_str(" pages | ok=");
    push_decimal(out, t.succeeded as u128);
    out.push_str(" | failed=");
    push_decimal(out, t.failed as u128);
    out.push_str(" | total=");
    push_decimal(out, t.total_elapsed_ms);
    out.push_str(" ms | avg=");
    push_decimal(out, t.average_elapsed_ms);
    out.push_str(" ms/page\n");
    assert(out@ =~= old(out)@ + llm_deep_line(*t));
}

/// The models of an optional list of fetched pages.
pub open spec fn optional_deep(deep: Option<Vec<DeepResult>>) -> Option<Seq<DeepModel>> {
    match deep {
        Some(ds) => Some(deep_models(ds@)),
        None => None,
    }
}

/// What a search prints for a language model.
pub fn llm_search_output(
    query: &str,
    results: &Vec<SearchResult>,
    deep_results: &Option<Vec<DeepResult>>,
    telemetry: &SearchTelemetry,
    deep_telemetry: &Option<DeepTelemetry>,
) -> (res: String)
    ensures
        res@ == llm_report(
            query@,
            models(results@),
            optional_deep(*deep_results),
            telemetry@,
            *deep_telemetry,
        ),
{
    let mut out = String::new();
    out.push_str("# Search Results\n");
    push_field(&mut out, "Query: ", query);
    push_counted(&mut out, "Returned: ", results.len() as u128, "");
    push_counted(&mut out, "Search time: ", telemetry.total_elapsed_ms, " ms");
    out.push_str("\n");
    push_llm_results(&mut out, results);
    if let Some(ds) = deep_results {
        out.push_str("# Deep Excerpts\n\n");
        push_llm_pages(&mut out, ds);
    }
    out.push_str("# Telemetry\n");
    push_counted(&mut out, "Candidates: ", telemetry.total_candidates as u128, "");
    push_counted(&mut out, "Unique results: ", telemetry.unique_results as u128, "");
    push_counted(&mut out, "Merge time: ", telemetry.merge_elapsed_ms, " ms");
    push_provider_lines(&mut out, "Provider: ", &telemetry.providers);
    if let Some(t) = deep_telemetry {
        push_llm_deep_line(&mut out, t);
    }
    assert(models(results@).len() == results@.len());
    assert(out@ =~= llm_report(
        query@,
        models(results@),
        optional_deep(*deep_results),
        telemetry@,
        *deep_telemetry,
    ));
    out
}

// For a person.

/// A result, the `n`-th of its list.
pub open spec fn plain_result(n: nat, r: ResultModel) -> Seq<char> {
    decimal(n) + field(". "@, r.title) + field("   "@, r.url) + (if r.snippet.len() == 0 {
        Seq::empty()
    } else {
        field("   "@, r.snippet)
    }) + field("   source: "@, r.source) + "\n"@
}

/// The results.
pub open spec fn plain_results(rs: Seq<ResultModel>) -> Seq<char>
    decreases rs.len(),
{
    if rs.len() == 0 {
        Seq::empty()
    } else {
        plain_results(rs.drop_last()) + plain_result(rs.len(), rs.last())
    }
}

/// A line without the carriage return at its end.
pub open spec fn without_return(line: Seq<char>) -> Seq<char> {
    if line.len() > 0 && line.last() == '\r' {
        line.drop_last()
    } else {
        line
    }
}

/// The first `count` lines of `s`, indented. A line ends with a line feed, or with a carriage
/// return and a line feed, or with `s`.
pub open spec fn indented(s: Seq<char>, count: nat) -> Seq<char>
    decreases count,
{
    if count == 0 || s.len() == 0 {
        Seq::empty()
    } else {
        match first_of(s, '\n') {
            None => field("    "@, s),
            Some(k) => field("    "@, without_return(s.take(k))) + indented(
                s.skip(k + 1),
                (count - 1) as nat,
            ),
        }
    }
}

/// What came of fetching a page.
pub open spec fn plain_page(d: DeepModel) -> Seq<char> {
    field("- "@, d.title) + field("  "@, d.url) + counted(
        "  took: "@,
        d.elapsed_ms as nat,
        " ms"@,
    ) + (match (d.error, d.markdown_excerpt) {
        (Some(error), _) => field("  error: "@, error),
        (None, Some(excerpt)) => "  excerpt:\n"@ + indented(excerpt, EXCERPT_LINES as nat),
        (None, None) => Seq::empty(),
    }) + "\n"@
}

/// What came of fetching the pages.
pub open spec fn plain_pages(ds: Seq<DeepModel>) -> Seq<char>
    decreases ds.len(),
{
    if ds.len() == 0 {
        Seq::empty()
    } else {
        plain_pages(ds.drop_last()) + plain_page(ds.last())
    }
}

/// What a search prints for a person.
pub open spec fn plain_report(
    query: Seq<char>,
    results: Seq<ResultModel>,
    deep: Option<Seq<DeepModel>>,
) -> Seq<char> {
    field("Query: "@, query) + counted("Results: "@, results.len(), ""@) + "\n"@ + plain_results(
        results,
    ) + (match deep {
        Some(ds) => counted("Deep fetch ("@, ds.len(), " pages):"@) + "\n"@ + plain_pages(ds),
        None => Seq::empty(),
    })
}

fn push_plain_result(out: &mut String, n: usize, r: &SearchResult)
    ensures
        final(out)@ == old(out)@ + plain_result(n as nat, r@),
{
    push_decimal(out, n as u128);
    push_field(out, ". ", r.title.as_str());
    push_field(out, "   ", r.url.as_str());
    if !r.snippet.as_str().is_empty() {
        push_field(out, "   ", r.snippet.as_str());
    }
    push_field(out, "   source: ", r.source.as_str());
    out.push_str("\n");
    assert(out@ =~= old(out)@ + plain_result(n as nat, r@));
}

fn push_plain_results(out: &mut String, rs: &Vec<SearchResult>)
    ensures
        final(out)@ == old(out)@ + plain_results(models(rs@)),
{
    let ghost start = out@;
    let ghost all = models(rs@);
    assert(all.take(0) =~= Seq::empty());
    assert(start + Seq::empty() =~= start);
    for i in 0..rs.len()
        invariant
            all == models(rs@),
            out@ == start + plain_results(all.take(i as int)),
    {
        push_plain_result(out, i + 1, &rs[i]);
        proof {
            assert(all.take(i + 1).drop_last() =~= all.take(i as int));
            assert(all.take(i + 1).last() == rs@[i as int]@);
            assert(out@ =~= start + plain_results(all.take(i + 1)));
        }
    }
    assert(all.take(rs@.len() as int) =~= all);
}

/// Appends the first `count` lines of `text`, indented.
fn push_indented(out: &mut String, text: &str, count: usize)
    ensures
        final(out)@ == old(out)@ + indented(text@, count as nat),
{
    let ghost start = out@;
    let cs = chars_of(text);
    let n: usize = cs.len();
    let mut at: usize = 0;
    let mut left: usize = count;
    assert(cs@.skip(0) =~= cs@);
    while at < n && left > 0
        invariant
            at <= n == cs@.len(),
            cs@ == text@,
            out@ + indented(cs@.skip(at as int), left as nat) == start + indented(
                text@,
                count as nat,
            ),
        decreases left,
    {
        let ghost rest = cs@.skip(at as int);
        let ghost before = out@;
        let (end, next): (usize, usize) = match find_char(&cs, '\n', at) {
            Some(k) => (
                if k > at && cs[k - 1] == '\r' {
                    k - 1
                } else {
                    k
                },
                k + 1,
            ),
            None => (n, n),
        };
        out.push_str("    ");
        push_chars(out, &cs, at, end);
        out.push_str("\n");
        left -= 1;
        proof {
            let line = cs@.subrange(at as int, end as int);
            lemma_first_of(rest, '\n');
            match first_of(rest, '\n') {
                Some(k) => {
                    assert(without_return(rest.take(k)) =~= line);
                    assert(rest.skip(k + 1) =~= cs@.skip(next as int));
                },
                None => {
                    assert(rest =~= line);
                },
            }
            assert(out@ + indented(cs@.skip(next as int), left as nat) =~= before + indented(
                rest,
                (left + 1) as nat,
            ));
        }
        at = next;
    }
    assert(out@ + Seq::empty() =~= out@);
}

fn push_plain_page(out: &mut String, d: &DeepResult)
    ensures
        final(out)@ == old(out)@ + plain_page(d@),
{
    push_field(out, "- ", d.title.as_str());
    push_field(out, "  ", d.url.as_str());
    push_counted(out, "  took: ", d.elapsed_ms, " ms");
    if let Some(error) = &d.error {
        push_field(out, "  error: ", error.as_str());
    } else if let Some(excerpt) = &d.markdown_excerpt {
        out.push_str("  excerpt:\n");
        push_indented(out, excerpt.as_str(), EXCERPT_LINES);
    }
    out.push_str("\n");
    assert(out@ =~= old(out)@ + plain_page(d@));
}

fn push_plain_pages(out: &mut String, ds: &Vec<DeepResult>)
    ensures
        final(out)@ == old(out)@ + plain_pages(deep_models(ds@)),
{
    let ghost start = out@;
    let ghost all = deep_models(ds@);
    assert(all.take(0) =~= Seq::empty());
    assert(start + Seq::empty() =~= start);
    for i in 0..ds.len()
        invariant
            all == deep_models(ds@),
            out@ == start + plain_pages(all.take(i as int)),
    {
        push_plain_page(out, &ds[i]);
        proof {
            assert(all.take(i + 1).drop_last() =~= all.take(i as int));
            assert(all.take(i + 1).last() == ds@[i as int]@);
            assert(out@ =~= start + plain_pages(all.take(i + 1)));
        }
    }
    assert(all.take(ds@.len() as int) =~= all);
}

/// What a search prints for a person.
pub fn plain_search_output(
    query: &str,
    results: &Vec<SearchResult>,
    deep_results: &Option<Vec<DeepResult>>,
) -> (res: String)
    ensures
        res@ == plain_report(query@, models(results@), optional_deep(*deep_results)),
{
    let mut out = String::new();
    push_field(&mut out, "Query: ", query);
    push_counted(&mut out, "Results: ", results.len() as u128, "");
    out.push_str("\n");
    push_plain_results(&mut out, results);
    assert(models(results@).len() == results@.len());
    if let Some(ds) = deep_results {
        push_counted(&mut out, "Deep fetch (", ds.len() as u128, " pages):");
        out.push_str("\n");
        push_plain_pages(&mut out, ds);
        assert(deep_models(ds@).len() == ds@.len());
    }
    assert(out@ =~= plain_report(query@, models(results@), optional_deep(*deep_results)));
    out
}

// For a program.

/// What a search prints for a program.
#[derive(Debug)]
pub struct SearchOutput {
    pub query: String,
    pub took_ms: u128,
    pub result_count: usize,
    pub results: Vec<SearchResult>,
    pub deep_results: Option<Vec<DeepResult>>,
    pub telemetry: Option<SearchTelemetry>,
    pub deep_telemetry: Option<DeepTelemetry>,
}

/// What a search prints for a program.
pub fn search_output(
    query: String,
    took_ms: u128,
    results: Vec<SearchResult>,
    deep_results: Option<Vec<DeepResult>>,
    telemetry: SearchTelemetry,
    deep_telemetry: Option<DeepTelemetry>,
) -> (res: SearchOutput)
    ensures
        res == (SearchOutput {
            query,
            took_ms,
            result_count: results@.len() as usize,
            results,
            deep_results,
            telemetry: Some(telemetry),
            deep_telemetry,
        }),
{
    SearchOutput {
        query,
        took_ms,
        result_count: results.len(),
        results,
        deep_results,
        telemetry: Some(telemetry),
        deep_telemetry,
    }
}

// How a search fared.

/// How the fetching of the pages fared.
pub open spec fn verbose_deep_line(t: DeepTelemetry) -> Seq<char> {
    "[timing] deep total     : "@ + decimal(t.total_elapsed_ms as nat) + " ms (avg "@ + decimal(
        t.average_elapsed_ms as nat,
    ) + " ms/page, ok="@ + decimal(t.succeeded as nat) + ", failed="@ + decimal(t.failed as nat)
        + ")\n"@
}

/// How a search fared, where `rate` is how many results a second it found and `deep_rate` how
/// many pages a second it fetched.
pub open spec fn verbose_report(
    t: TelemetryModel,
    deep: Option<DeepTelemetry>,
    rate: Seq<char>,
    deep_rate: Seq<char>,
) -> Seq<char> {
    "[perf] merged results   : "@ + decimal(t.unique_results as nat) + counted(
        " unique from "@,
        t.total_candidates as nat,
        " candidates"@,
    ) + field("[perf] search throughput: "@, rate + " results/s"@) + counted(
        "[timing] merge          : "@,
        t.merge_elapsed_ms as nat,
        " ms"@,
    ) + provider_lines("[verbose] provider      : "@, t.providers) + (match deep {
        Some(d) => field("[perf] deep throughput  : "@, deep_rate + " pages/s"@)
            + verbose_deep_line(d),
        None => Seq::empty(),
    })
}

fn push_verbose_deep_line(out: &mut String, t: &DeepTelemetry)
    ensures
        final(out)@ == old(out)@ + verbose_deep_line(*t),
{
    out.push_str("[timing] deep total     : ");
    push_decimal(out, t.total_elapsed_ms);
    out.push_str(" ms (avg ");
    push_decimal(out, t.average_elapsed_ms);
    out.push_str(" ms/page, ok=");
    push_decimal(out, t.succeeded as u128);
    out.push_str(", failed=");
    push_decimal(out, t.failed as u128);
    out.push_str(")\n");
    assert(out@ =~= old(out)@ + verbose_deep_line(*t));
}

/// How a search fared, where `rate` is how many results a second it found and `deep_rate` how
/// many pages a second it fetched.
pub fn search_verbose_output(
    search: &SearchTelemetry,
    deep: &Option<DeepTelemetry>,
    rate: &str,
    deep_rate: &str,
) -> (res: String)
    ensures
        res@ == verbose_report(search@, *deep, rate@, deep_rate@),
        res@ == "[perf] merged results   : "@ + decimal(search.unique_results as nat) + (
        " unique from "@ + decimal(search.total_candidates as nat) + " candidates"@ + "\n"@) + (
        "[perf] search throughput: "@ + (rate@ + " results/s"@) + "\n"@) + (
        "[timing] merge          : "@ + decimal(search.merge_elapsed_ms as nat) + " ms"@ + "\n"@)
            + provider_lines("[verbose] provider      : "@, search@.providers) + (match *deep {
            Some(d) => ("[perf] deep throughput  : "@ + (deep_rate@ + " pages/s"@) + "\n"@) + (
            "[timing] deep total     : "@ + decimal(d.total_elapsed_ms as nat) + " ms (avg "@
                + decimal(d.average_elapsed_ms as nat) + " ms/page, ok="@ + decimal(
                d.succeeded as nat,
            ) + ", failed="@ + decimal(d.failed as nat) + ")\n"@),
            None => Seq::empty(),
        }),
{
    let mut out = String::new();
    out.push_str("[perf] merged results   : ");
    push_decimal(&mut out, search.unique_results as u128);
    push_counted(&mut out, " unique from ", search.total_candidates as u128, " candidates");
    out.push_str("[perf] search throughput: ");
    push_field(&mut out, rate, " results/s");
    push_counted(&mut out, "[timing] merge          : ", search.merge_elapsed_ms, " ms");
    push_provider_lines(&mut out, "[verbose] provider      : ", &search.providers);
    if let Some(d) = deep {
        out.push_str("[perf] deep throughput  : ");
        push_field(&mut out, deep_rate, " pages/s");
        push_verbose_deep_line(&mut out, d);
    }
    assert(out@ =~= verbose_report(search@, *deep, rate@, deep_rate@));
    out
}

// What a search says on its way.

/// What a search in the phase `phase` says before it does `action`.
pub open spec fn announcement(phase: Phase, action: ActionModel) -> Option<Seq<char>> {
    match action {
        ActionModel::Search { timeout_ms } => match phase {
            Phase::Widened => Some(
                "[info] search fallback   : retrying with a wider timeout ("@ + decimal(
                    timeout_ms as nat,
                ) + " ms)"@,
            ),
            Phase::Repeated => Some(
                "[warn] relevance filter : provider results look off-topic, retrying ("@ + decimal(
                    timeout_ms as nat,
                ) + " ms)"@,
            ),
            _ => None,
        },
        ActionModel::Ask { query } => Some(
            "[info] relevance rescue : trying targeted DuckDuckGo query "@ + query,
        ),
        _ => None,
    }
}

/// What a search in the phase `phase` says before it does `action`.
pub fn announce(phase: Phase, action: &SearchAction) -> (res: Option<String>)
    ensures
        text_of(res) == announcement(phase, action@),
        match *action {
            SearchAction::Search { timeout_ms } => match phase {
                Phase::Widened => text_of(res) == Some(
                    "[info] search fallback   : retrying with a wider timeout ("@ + decimal(
                        timeout_ms as nat,
                    ) + " ms)"@,
                ),
                Phase::Repeated => text_of(res) == Some(
                    "[warn] relevance filter : provider results look off-topic, retrying ("@
                        + decimal(timeout_ms as nat) + " ms)"@,
                ),
                _ => res is None,
            },
            SearchAction::Ask { query } => text_of(res) == Some(
                "[info] relevance rescue : trying targeted DuckDuckGo query "@ + query@,
            ),
            _ => res is None,
        },
{
    let mut out = String::new();
    match action {
        SearchAction::Search { timeout_ms } => {
            match phase {
                Phase::Widened => out.push_str(
                    "[info] search fallback   : retrying with a wider timeout (",
                ),
                Phase::Repeated => out.push_str(
                    "[warn] relevance filter : provider results look off-topic, retrying (",
                ),
                _ => {
                    return None;
                },
            }
            push_decimal(&mut out, *timeout_ms as u128);
            out.push_str(" ms)");
        },
        SearchAction::Ask { query } => {
            out.push_str("[info] relevance rescue : trying targeted DuckDuckGo query ");
            out.push_str(query.as_str());
        },
        _ => {
            return None;
        },
    }
    assert(out@ =~= announcement(phase, action@)->0);
    Some(out)
}

/// What a search says once it has found `found` domains.
pub open spec fn discovery_announcement(found: nat) -> Option<Seq<char>> {
    if found == 0 {
        None
    } else {
        Some(
            "[info] relevance rescue : discovered "@ + decimal(found)
                + " candidate domain result(s)"@,
        )
    }
}

/// What a search says once it has found `found` domains.
pub fn announce_discovery(found: usize) -> (res: Option<String>)
    ensures
        text_of(res) == discovery_announcement(found as nat),
        found == 0 ==> res is None,
        found > 0 ==> text_of(res) == Some(
            "[info] relevance rescue : discovered "@ + decimal(found as nat)
                + " candidate domain result(s)"@,
        ),
{
    if found == 0 {
        return None;
    }
    let mut out = String::new();
    out.push_str("[info] relevance rescue : discovered ");
    push_decimal(&mut out, found as u128);
    out.push_str(" candidate domain result(s)");
    assert(out@ =~= discovery_announcement(found as nat)->0);
    Some(out)
}

/// What is said of a provider that did not answer with results.
pub open spec fn warning(p: Provider, answer: AnswerModel, timeout_ms: u64) -> Option<Seq<char>> {
    match answer {
        AnswerModel::Results(_) => None,
        AnswerModel::Failed(error) => Some(
            "[warn] provider "@ + name_of(p) + " failed: "@ + error,
        ),
        AnswerModel::TimedOut => Some(
            "[warn] provider "@ + name_of(p) + " timed out after "@ + decimal(timeout_ms as nat)
                + "ms"@,
        ),
    }
}

/// What is said of a provider that did not answer with results.
pub fn provider_warning(provider: Provider, answer: &ProviderAnswer, timeout_ms: u64) -> (res:
    Option<String>)
    ensures
        text_of(res) == warning(provider, answer@, timeout_ms),
        ({
            let name = match provider {
                Provider::DuckDuckGo => "duckduckgo"@,
                Provider::BingRss => "bing-rss"@,
            };
            match *answer {
                ProviderAnswer::Results(_) => res is None,
                ProviderAnswer::Failed(error) => text_of(res) == Some(
                    "[warn] provider "@ + name + " failed: "@ + error@,
                ),
                ProviderAnswer::TimedOut => text_of(res) == Some(
                    "[warn] provider "@ + name + " timed out after "@ + decimal(timeout_ms as nat)
                        + "ms"@,
                ),
            }
        }),
{
    let mut out = String::new();
    out.push_str("[warn] provider ");
    out.push_str(provider.name().as_str());
    match answer {
        ProviderAnswer::Results(_) => {
            return None;
        },
        ProviderAnswer::Failed(error) => {
            out.push_str(" failed: ");
            out.push_str(error.as_str());
        },
        ProviderAnswer::TimedOut => {
            out.push_str(" timed out after ");
            push_decimal(&mut out, timeout_ms as u128);
            out.push_str("ms");
        },
    }
    assert(out@ =~= warning(provider, answer@, timeout_ms)->0);
    Some(out)
}

// Laws.

/// The line of a provider: its name, its status, how long it took and how many results it gave.
pub proof fn law_provider_line(label: Seq<char>, m: MetricModel, ms: Seq<MetricModel>)
    ensures
        provider_lines(label, Seq::empty()) == Seq::<char>::empty(),
        provider_lines(label, ms.push(m)) == provider_lines(label, ms) + label + m.name
            + " | status="@ + m.status + " | "@ + decimal(m.elapsed_ms as nat) + " ms | "@
            + decimal(m.result_count as nat) + " results\n"@,
{
    assert(ms.push(m).drop_last() =~= ms);
    assert(provider_lines(label, ms.push(m)) =~= provider_lines(label, ms) + label + m.name
        + " | status="@ + m.status + " | "@ + decimal(m.elapsed_ms as nat) + " ms | "@ + decimal(
        m.result_count as nat,
    ) + " results\n"@);
}

/// What a language model is shown of a result: its number, its title, its address, its source and
/// its snippet, where it has one, behind what was shown before.
pub proof fn law_llm_result(rs: Seq<ResultModel>, r: ResultModel)
    ensures
        llm_results(Seq::empty()) == Seq::<char>::empty(),
        llm_results(rs.push(r)) == llm_results(rs) + (("## Result "@ + decimal(rs.len() + 1) + ""@
            + "\n"@) + ("Title: "@ + r.title + "\n"@) + ("URL: "@ + r.url + "\n"@) + ("Source: "@
            + r.source + "\n"@) + (if r.snippet.len() > 0 {
            "Snippet: "@ + r.snippet + "\n"@
        } else {
            Seq::empty()
        }) + "\n"@),
{
    assert(rs.push(r).drop_last() =~= rs);
}

/// What a person is shown of a result: its number, its title, its address, its snippet, where it
/// has one, and its source, behind what was shown before.
pub proof fn law_plain_result(rs: Seq<ResultModel>, r: ResultModel)
    ensures
        plain_results(Seq::empty()) == Seq::<char>::empty(),
        plain_results(rs.push(r)) == plain_results(rs) + (decimal(rs.len() + 1) + (". "@ + r.title
            + "\n"@) + ("   "@ + r.url + "\n"@) + (if r.snippet.len() > 0 {
            "   "@ + r.snippet + "\n"@
        } else {
            Seq::empty()
        }) + ("   source: "@ + r.source + "\n"@) + "\n"@),
{
    assert(rs.push(r).drop_last() =~= rs);
}

/// What a language model is shown of a page that was fetched: its number, its title, its address,
/// how long it took, and the error or, where there is none, the excerpt.
pub proof fn law_llm_page(ds: Seq<DeepModel>, d: DeepModel)
    ensures
        llm_pages(Seq::empty()) == Seq::<char>::empty(),
        llm_pages(ds.push(d)) == llm_pages(ds) + (("## Page "@ + decimal(ds.len() + 1) + ""@
            + "\n"@) + ("Title: "@ + d.title + "\n"@) + ("URL: "@ + d.url + "\n"@) + ("Elapsed: "@
            + decimal(d.elapsed_ms as nat) + " ms"@ + "\n"@) + (if d.error is Some {
            "Error: "@ + d.error->0 + "\n"@
        } else if d.markdown_excerpt is Some {
            "Excerpt:\n"@ + (""@ + d.markdown_excerpt->0 + "\n"@)
        } else {
            Seq::empty()
        }) + "\n"@),
{
    assert(ds.push(d).drop_last() =~= ds);
}

/// What a person is shown of a page that was fetched: its title, its address, how long it took, and
/// the error or, where there is none, the first twenty lines of the excerpt.
pub proof fn law_plain_page(ds: Seq<DeepModel>, d: DeepModel)
    ensures
        plain_pages(Seq::empty()) == Seq::<char>::empty(),
        plain_pages(ds.push(d)) == plain_pages(ds) + (("- "@ + d.title + "\n"@) + ("  "@ + d.url
            + "\n"@) + ("  took: "@ + decimal(d.elapsed_ms as nat) + " ms"@ + "\n"@) + (
        if d.error is Some {
            "  error: "@ + d.error->0 + "\n"@
        } else if d.markdown_excerpt is Some {
            "  excerpt:\n"@ + indented(d.markdown_excerpt->0, 20)
        } else {
            Seq::empty()
        }) + "\n"@),
{
    assert(ds.push(d).drop_last() =~= ds);
}

/// The lines of an excerpt are indented one by one, without the carriage returns at their ends, and
/// no more of them than asked for.
pub proof fn law_indented(line: Seq<char>, rest: Seq<char>, count: nat)
    requires
        !line.contains('\n'),
    ensures
        indented(rest, 0) == Seq::<char>::empty(),
        line.len() > 0 ==> indented(line, count + 1) == "    "@ + line + "\n"@,
        line.len() == 0 || line.last() != '\r' ==> indented(
            line + seq!['\n'] + rest,
            count + 1,
        ) == "    "@ + line + "\n"@ + indented(rest, count),
        indented(line + seq!['\r', '\n'] + rest, count + 1) == "    "@ + line + "\n"@ + indented(
            rest,
            count,
        ),
{
    lemma_first_of(line, '\n');
    if let Some(k) = first_of(line, '\n') {
        assert(line.contains(line[k]));
    }
    let n = line.len() as int;
    let a = line + seq!['\n'] + rest;
    lemma_first_of(a, '\n');
    assert(a[n] == '\n');
    assert forall|j: int| 0 <= j < n implies a[j] != '\n' && line[j] != '\n' by {
        assert(a[j] == line[j]);
        assert(line.contains(line[j]));
    }
    assert(first_of(a, '\n') == Some(n));
    assert(a.take(n) =~= line);
    assert(a.skip(n + 1) =~= rest);
    let b = line + seq!['\r', '\n'] + rest;
    lemma_first_of(b, '\n');
    assert(b[n + 1] == '\n');
    assert forall|j: int| 0 <= j < n + 1 implies b[j] != '\n' by {
        if j < n {
            assert(b[j] == line[j]);
        }
    }
    assert(first_of(b, '\n') == Some(n + 1));
    assert(b.take(n + 1).drop_last() =~= line);
    assert(b.skip(n + 2) =~= rest);
}

/// What a search prints for a person: the query and the number of the results, the results, and
/// what came of the pages that were fetched.
pub proof fn law_plain_report(query: Seq<char>, results: Seq<ResultModel>, ds: Seq<DeepModel>)
    ensures
        ({
            let head = ("Query: "@ + query + "\n"@) + ("Results: "@ + decimal(results.len()) + ""@
                + "\n"@) + "\n"@ + plain_results(results);
            &&& plain_report(query, results, None) == head
            &&& plain_report(query, results, Some(ds)) == head + (("Deep fetch ("@ + decimal(
                ds.len(),
            ) + " pages):"@ + "\n"@) + "\n"@ + plain_pages(ds))
        }),
{
    let head = field("Query: "@, query) + counted("Results: "@, results.len(), ""@) + "\n"@
        + plain_results(results);
    assert(head + Seq::empty() =~= head);
}

/// What a search prints for a language model: the query, the number of the results and the time
/// that it took, the results, what came of the pages that were fetched, and how the providers and
/// the fetching fared.
pub proof fn law_llm_report(
    query: Seq<char>,
    results: Seq<ResultModel>,
    deep: Option<Seq<DeepModel>>,
    t: TelemetryModel,
    deep_telemetry: Option<DeepTelemetry>,
)
    ensures
        llm_report(query, results, deep, t, deep_telemetry) == "# Search Results\n"@ + ("Query: "@
            + query + "\n"@) + ("Returned: "@ + decimal(results.len()) + ""@ + "\n"@) + (
        "Search time: "@ + decimal(t.total_elapsed_ms as nat) + " ms"@ + "\n"@) + "\n"@
            + llm_results(results) + (if deep is Some {
            "# Deep Excerpts\n\n"@ + llm_pages(deep->0)
        } else {
            Seq::empty()
        }) + "# Telemetry\n"@ + ("Candidates: "@ + decimal(t.total_candidates as nat) + ""@
            + "\n"@) + ("Unique results: "@ + decimal(t.unique_results as nat) + ""@ + "\n"@) + (
        "Merge time: "@ + decimal(t.merge_elapsed_ms as nat) + " ms"@ + "\n"@) + provider_lines(
            "Provider: "@,
            t.providers,
        ) + (if deep_telemetry is Some {
            let d = deep_telemetry->0;
            "Deep fetch: "@ + decimal(d.completed as nat) + " pages | ok="@ + decimal(
                d.succeeded as nat,
            ) + " | failed="@ + decimal(d.failed as nat) + " | total="@ + decimal(
                d.total_elapsed_ms as nat,
            ) + " ms | avg="@ + decimal(d.average_elapsed_ms as nat) + " ms/page\n"@
        } else {
            Seq::empty()
        }),
{
}

/// Whether `part` stands somewhere in `whole`.
pub open spec fn shows(whole: Seq<char>, part: Seq<char>) -> bool {
    exists|before: Seq<char>, after: Seq<char>| whole == #[trigger] (before + part + after)
}

/// What a text shows, it shows with more text around it.
proof fn lemma_shows(before: Seq<char>, text: Seq<char>, after: Seq<char>, part: Seq<char>)
    requires
        shows(text, part),
    ensures
        shows(before + text + after, part),
{
    let (a, b) = choose|a: Seq<char>, b: Seq<char>| text == #[trigger] (a + part + b);
    let (x, y) = (before + a, b + after);
    assert(before + text + after =~= x + part + y);
}

proof fn lemma_llm_results_show(rs: Seq<ResultModel>, i: int)
    requires
        0 <= i < rs.len(),
    ensures
        shows(llm_results(rs), llm_result((i + 1) as nat, rs[i])),
    decreases rs.len(),
{
    let before = llm_results(rs.drop_last());
    let last = llm_result(rs.len(), rs.last());
    let none = Seq::<char>::empty();
    if i < rs.len() - 1 {
        lemma_llm_results_show(rs.drop_last(), i);
        lemma_shows(none, before, last, llm_result((i + 1) as nat, rs[i]));
        assert(none + before + last =~= llm_results(rs));
    } else {
        assert(llm_results(rs) =~= before + last + none);
    }
}

proof fn lemma_plain_results_show(rs: Seq<ResultModel>, i: int)
    requires
        0 <= i < rs.len(),
    ensures
        shows(plain_results(rs), plain_result((i + 1) as nat, rs[i])),
    decreases rs.len(),
{
    let before = plain_results(rs.drop_last());
    let last = plain_result(rs.len(), rs.last());
    let none = Seq::<char>::empty();
    if i < rs.len() - 1 {
        lemma_plain_results_show(rs.drop_last(), i);
        lemma_shows(none, before, last, plain_result((i + 1) as nat, rs[i]));
        assert(none + before + last =~= plain_results(rs));
    } else {
        assert(plain_results(rs) =~= before + last + none);
    }
}

/// Every result is shown to a language model and to a person, under its number.
pub proof fn law_every_result_is_shown(
    query: Seq<char>,
    results: Seq<ResultModel>,
    deep: Option<Seq<DeepModel>>,
    telemetry: TelemetryModel,
    deep_telemetry: Option<DeepTelemetry>,
    i: int,
)
    requires
        0 <= i < results.len(),
    ensures
        shows(
            llm_report(query, results, deep, telemetry, deep_telemetry),
            llm_result((i + 1) as nat, results[i]),
        ),
        shows(plain_report(query, results, deep), plain_result((i + 1) as nat, results[i])),
{
    lemma_llm_results_show(results, i);
    let llm_head = "# Search Results\n"@ + field("Query: "@, query) + counted(
        "Returned: "@,
        results.len(),
        ""@,
    ) + counted("Search time: "@, telemetry.total_elapsed_ms as nat, " ms"@) + "\n"@;
    let llm = llm_report(query, results, deep, telemetry, deep_telemetry);
    let llm_body = llm_results(results);
    let llm_tail = llm.skip((llm_head + llm_body).len() as int);
    assert(llm =~= llm_head + llm_body + llm_tail);
    lemma_shows(llm_head, llm_body, llm_tail, llm_result((i + 1) as nat, results[i]));
    lemma_plain_results_show(results, i);
    let head = field("Query: "@, query) + counted("Results: "@, results.len(), ""@) + "\n"@;
    let plain = plain_report(query, results, deep);
    let body = plain_results(results);
    let tail = plain.skip((head + body).len() as int);
    assert(plain =~= head + body + tail);
    lemma_shows(head, body, tail, plain_result((i + 1) as nat, results[i]));
}

} // verus!
