//! How well search results match a query, and which of them are worth showing.
use vstd::prelude::*;

use crate::letters::alphanumeric;
use crate::letters::byte_count;
use crate::letters::byte_len;
use crate::letters::contains_chars;
use crate::letters::contains_text;
use crate::letters::is_alphanumeric;
use crate::letters::law_contains_text;
use crate::letters::lowercase;
use crate::letters::to_lower;
use crate::results::all_different;
use crate::results::at_most;
use crate::results::models;
use crate::results::ResultModel;
use crate::results::SearchResult;
use crate::text::chars_of;
use crate::text::law_words_of_both;
use crate::text::lemma_word_len;
use crate::text::lemma_word_len_is;
use crate::text::string_of;
use crate::text::texts;
use crate::text::white_space;
use crate::text::word_len;
use crate::text::word_ranges;
use crate::text::words;
use crate::urls::canonical;

verus! {

/// `s` without what stands before its first letter or digit.
pub open spec fn core_start(s: Seq<char>) -> Seq<char>
    decreases s.len(),
{
    if s.len() > 0 && !alphanumeric(s.first()) {
        core_start(s.drop_first())
    } else {
        s
    }
}

/// `s` without what stands behind its last letter or digit.
pub open spec fn core_end(s: Seq<char>) -> Seq<char>
    decreases s.len(),
{
    if s.len() > 0 && !alphanumeric(s.last()) {
        core_end(s.drop_last())
    } else {
        s
    }
}

/// `s` from its first to its last letter or digit.
pub open spec fn core_of(s: Seq<char>) -> Seq<char> {
    core_end(core_start(s))
}

/// The terms of a query's words: the core of each, where it has three bytes or more, in lower
/// case.
pub open spec fn terms_of(ws: Seq<Seq<char>>) -> Seq<Seq<char>>
    decreases ws.len(),
{
    if ws.len() == 0 {
        Seq::empty()
    } else {
        let before = terms_of(ws.drop_last());
        let core = core_of(ws.last());
        if byte_len(core) >= 3 {
            before.push(lowercase(core))
        } else {
            before
        }
    }
}

/// The bounds, within `from` and `to`, of the core of the characters of `cs`.
fn core_range(cs: &[char], from: usize, to: usize) -> (res: (usize, usize))
    requires
        from <= to <= cs@.len(),
    ensures
        from <= res.0 <= res.1 <= to,
        cs@.subrange(res.0 as int, res.1 as int) == core_of(cs@.subrange(from as int, to as int)),
{
    let ghost whole = cs@.subrange(from as int, to as int);
    let mut start: usize = from;
    while start < to && !is_alphanumeric(cs[start])
        invariant
            from <= start <= to <= cs@.len(),
            whole == cs@.subrange(from as int, to as int),
            core_start(whole) == core_start(cs@.subrange(start as int, to as int)),
        decreases to - start,
    {
        let ghost here = cs@.subrange(start as int, to as int);
        assert(here.drop_first() =~= cs@.subrange(start + 1, to as int));
        start += 1;
    }
    let ghost left = cs@.subrange(start as int, to as int);
    assert(core_start(whole) == left);
    let mut end: usize = to;
    while start < end && !is_alphanumeric(cs[end - 1])
        invariant
            from <= start <= end <= to <= cs@.len(),
            left == cs@.subrange(start as int, to as int),
            core_end(left) == core_end(cs@.subrange(start as int, end as int)),
        decreases end,
    {
        let ghost here = cs@.subrange(start as int, end as int);
        assert(here.drop_last() =~= cs@.subrange(start as int, end - 1));
        end -= 1;
    }
    (start, end)
}

/// The terms of a query.
pub fn query_terms(query: &str) -> (res: Vec<String>)
    ensures
        texts(res@) == terms_of(words(query@)),
{
    let cs = chars_of(query);
    let ranges = word_ranges(&cs);
    let ghost ws = words(query@);
    let mut res: Vec<String> = Vec::new();
    let mut i: usize = 0;
    assert(texts(res@) =~= terms_of(ws.take(0)));
    while i < ranges.len()
        invariant
            i <= ranges@.len(),
            ws == ranges@.map_values(|r: (usize, usize)| cs@.subrange(r.0 as int, r.1 as int)),
            forall|k: int|
                0 <= k < ranges@.len() ==> (#[trigger] ranges@[k]).0 <= ranges@[k].1 <= cs@.len(),
            texts(res@) == terms_of(ws.take(i as int)),
        decreases ranges@.len() - i,
    {
        let (a, b) = ranges[i];
        let (from, to) = core_range(&cs, a, b);
        let core = string_of(&cs, from, to);
        assert(ws.take(i + 1).drop_last() =~= ws.take(i as int));
        assert(ws[i as int] == cs@.subrange(a as int, b as int));
        if byte_count(core.as_str()) >= 3 {
            let ghost before = res@;
            let term = to_lower(core.as_str());
            res.push(term);
            assert(texts(res@) =~= texts(before).push(lowercase(core@)));
        }
        i += 1;
    }
    assert(ws.take(i as int) =~= ws);
    res
}

/// Whether a term stands in a result's title, snippet or address, whatever their case.
pub open spec fn mentions(r: ResultModel, term: Seq<char>) -> bool {
    ||| contains_text(lowercase(r.title), term)
    ||| contains_text(lowercase(r.snippet), term)
    ||| contains_text(lowercase(r.url), term)
}

/// How many of `terms` a result mentions.
pub open spec fn score(r: ResultModel, terms: Seq<Seq<char>>) -> nat
    decreases terms.len(),
{
    if terms.len() == 0 {
        0
    } else {
        score(r, terms.drop_last()) + if mentions(r, terms.last()) {
            1nat
        } else {
            0
        }
    }
}

/// A result mentions no more terms than there are.
pub proof fn lemma_score_bound(r: ResultModel, terms: Seq<Seq<char>>)
    ensures
        score(r, terms) <= terms.len(),
    decreases terms.len(),
{
    if terms.len() > 0 {
        lemma_score_bound(r, terms.drop_last());
    }
}

/// How many of `terms` a result mentions.
pub fn relevance_score(result: &SearchResult, terms: &Vec<String>) -> (res: usize)
    ensures
        res == score(result@, texts(terms@)),
{
    let title = chars_of(to_lower(result.title.as_str()).as_str());
    let snippet = chars_of(to_lower(result.snippet.as_str()).as_str());
    let url = chars_of(to_lower(result.url.as_str()).as_str());
    let ghost ts = texts(terms@);
    let mut count: usize = 0;
    let mut i: usize = 0;
    while i < terms.len()
        invariant
            i <= terms@.len(),
            count <= i,
            ts == texts(terms@),
            title@ == lowercase(result.title@),
            snippet@ == lowercase(result.snippet@),
            url@ == lowercase(result.url@),
            count == score(result@, ts.take(i as int)),
        decreases terms@.len() - i,
    {
        let term = chars_of(terms[i].as_str());
        assert(ts[i as int] == term@);
        assert(ts.take(i + 1).drop_last() =~= ts.take(i as int));
        if contains_chars(&title, &term) || contains_chars(&snippet, &term) || contains_chars(
            &url,
            &term,
        ) {
            count += 1;
        }
        i += 1;
    }
    assert(ts.take(i as int) =~= ts);
    count
}

/// How many terms a result must mention for a query with `term_count` terms.
pub open spec fn threshold(term_count: nat) -> nat {
    if term_count <= 1 {
        term_count
    } else {
        2
    }
}

/// How many terms a result must mention for a query with `term_count` terms.
pub fn min_term_match_threshold(term_count: usize) -> (res: usize)
    ensures
        res == threshold(term_count as nat),
        term_count <= 1 ==> res == term_count,
        term_count >= 2 ==> res == 2,
{
    match term_count {
        0 => 0,
        1 => 1,
        2 => 2,
        _ => 2,
    }
}

/// Those of `results` that mention exactly `n` of `terms`, in their order.
pub open spec fn with_score(
    results: Seq<ResultModel>,
    terms: Seq<Seq<char>>,
    n: int,
) -> Seq<ResultModel>
    decreases results.len(),
{
    if results.len() == 0 {
        Seq::empty()
    } else {
        let before = with_score(results.drop_last(), terms, n);
        if score(results.last(), terms) == n {
            before.push(results.last())
        } else {
            before
        }
    }
}

/// Those of `results` that mention at least `min` and at most `max` of `terms`: first those
/// that mention most, in their order, and so on down.
pub open spec fn ranked(
    results: Seq<ResultModel>,
    terms: Seq<Seq<char>>,
    max: int,
    min: int,
) -> Seq<ResultModel>
    decreases max - min + 1,
{
    if max < min {
        Seq::empty()
    } else {
        with_score(results, terms, max) + ranked(results, terms, max - 1, min)
    }
}

/// The results worth showing for a query, best first, up to `limit`.
pub open spec fn relevant(results: Seq<ResultModel>, query: Seq<char>, limit: nat) -> Seq<
    ResultModel,
> {
    let terms = terms_of(words(query));
    if terms.len() == 0 {
        Seq::empty()
    } else {
        at_most(ranked(results, terms, terms.len() as int, threshold(terms.len()) as int), limit)
    }
}

/// The results worth showing for a query, best first, up to `limit`.
pub fn filter_and_rank_relevant_results(
    results: &Vec<SearchResult>,
    query: &str,
    limit: usize,
) -> (res: Vec<SearchResult>)
    ensures
        models(res@) == relevant(models(results@), query@, limit as nat),
        res@.len() < limit ==> forall|i: int|
            0 <= i < results@.len() && {
                let terms = terms_of(words(query@));
                score((#[trigger] results@[i])@, terms) >= 2 || terms.len() == 1 && score(
                    results@[i]@,
                    terms,
                ) == 1
            } ==> models(res@).contains(results@[i]@),
{
    proof {
        law_two_terms_suffice(models(results@), query@, limit as nat);
        assert forall|i: int| 0 <= i < results@.len() implies #[trigger] results@[i]@ == models(
            results@,
        )[i] by {}
    }
    let terms = query_terms(query);
    let ghost ts = texts(terms@);
    let ghost ms = models(results@);
    let mut ranked_results: Vec<SearchResult> = Vec::new();
    if terms.len() == 0 {
        assert(models(ranked_results@) =~= Seq::<ResultModel>::empty());
        return ranked_results;
    }
    let min: usize = min_term_match_threshold(terms.len());
    let mut scores: Vec<usize> = Vec::new();
    let mut i: usize = 0;
    while i < results.len()
        invariant
            i <= results@.len(),
            i == scores@.len(),
            ts == texts(terms@),
            forall|k: int| 0 <= k < i ==> #[trigger] scores@[k] == score(results@[k]@, ts),
        decreases results@.len() - i,
    {
        let s: usize = relevance_score(&results[i], &terms);
        scores.push(s);
        i += 1;
    }
    let mut n: usize = terms.len();
    assert(ranked(ms, ts, ts.len() as int, min as int) =~= models(ranked_results@) + ranked(
        ms,
        ts,
        n as int,
        min as int,
    ));
    while n >= min
        invariant
            min >= 1,
            min <= n + 1,
            n <= ts.len(),
            scores@.len() == results@.len(),
            ms == models(results@),
            forall|k: int|
                0 <= k < results@.len() ==> #[trigger] scores@[k] == score(results@[k]@, ts),
            ranked(ms, ts, ts.len() as int, min as int) == models(ranked_results@) + ranked(
                ms,
                ts,
                n as int,
                min as int,
            ),
        decreases n,
    {
        let ghost above = models(ranked_results@);
        let mut k: usize = 0;
        assert(models(ranked_results@) =~= above + with_score(ms.take(0), ts, n as int));
        while k < results.len()
            invariant
                k <= results@.len(),
                scores@.len() == results@.len(),
                ms == models(results@),
                forall|j: int|
                    0 <= j < results@.len() ==> #[trigger] scores@[j] == score(results@[j]@, ts),
                models(ranked_results@) == above + with_score(ms.take(k as int), ts, n as int),
            decreases results@.len() - k,
        {
            assert(ms.take(k + 1).drop_last() =~= ms.take(k as int));
            assert(ms[k as int] == results@[k as int]@);
            if scores[k] == n {
                let ghost before = models(ranked_results@);
                ranked_results.push(results[k].clone());
                assert(models(ranked_results@) =~= before.push(ms[k as int]));
            }
            k += 1;
            assert(models(ranked_results@) =~= above + with_score(ms.take(k as int), ts, n as int));
        }
        assert(ms.take(k as int) =~= ms);
        assert(models(ranked_results@) + ranked(ms, ts, n - 1, min as int) =~= above + ranked(
            ms,
            ts,
            n as int,
            min as int,
        ));
        n -= 1;
    }
    assert(models(ranked_results@) =~= ranked(ms, ts, ts.len() as int, min as int));
    let ghost all = ranked_results@;
    if ranked_results.len() > limit {
        ranked_results.truncate(limit);
    }
    assert(models(ranked_results@) =~= at_most(models(all), limit as nat));
    ranked_results
}

/// The largest number of terms that one of `results` mentions.
pub open spec fn best(results: Seq<ResultModel>, terms: Seq<Seq<char>>) -> nat
    decreases results.len(),
{
    if results.len() == 0 {
        0
    } else if best(results.drop_last(), terms) < score(results.last(), terms) {
        score(results.last(), terms)
    } else {
        best(results.drop_last(), terms)
    }
}

/// The largest number of the query's terms that one of `results` mentions.
pub fn best_relevance_score(results: &Vec<SearchResult>, query: &str) -> (res: usize)
    ensures
        res == best(models(results@), terms_of(words(query@))),
        forall|i: int|
            0 <= i < results@.len() ==> score((#[trigger] results@[i])@, terms_of(words(query@)))
                <= res,
        res > 0 ==> exists|i: int|
            0 <= i < results@.len() && score((#[trigger] results@[i])@, terms_of(words(query@)))
                == res,
{
    proof {
        let all = models(results@);
        let terms = terms_of(words(query@));
        law_best(all, terms);
        assert forall|i: int| 0 <= i < results@.len() implies #[trigger] results@[i]@
            == all[i] by {}
        if best(all, terms) > 0 {
            let i = choose|i: int|
                0 <= i < all.len() && score(#[trigger] all[i], terms) == best(all, terms);
            assert(score(results@[i]@, terms) == best(all, terms));
        }
    }
    let terms = query_terms(query);
    let ghost ms = models(results@);
    let mut res: usize = 0;
    let mut i: usize = 0;
    while i < results.len()
        invariant
            i <= results@.len(),
            ms == models(results@),
            res == best(ms.take(i as int), texts(terms@)),
        decreases results@.len() - i,
    {
        let s: usize = relevance_score(&results[i], &terms);
        assert(ms.take(i + 1).drop_last() =~= ms.take(i as int));
        assert(ms[i as int] == results@[i as int]@);
        if res < s {
            res = s;
        }
        i += 1;
    }
    assert(ms.take(i as int) =~= ms);
    res
}

// Laws.

/// The results with a score are results of the list, have that score, and are all that have it.
proof fn lemma_with_score(results: Seq<ResultModel>, terms: Seq<Seq<char>>, n: int)
    ensures
        forall|k: int|
            0 <= k < with_score(results, terms, n).len() ==> results.contains(
                #[trigger] with_score(results, terms, n)[k],
            ) && score(with_score(results, terms, n)[k], terms) == n,
        forall|i: int|
            0 <= i < results.len() && score(#[trigger] results[i], terms) == n ==> with_score(
                results,
                terms,
                n,
            ).contains(results[i]),
    decreases results.len(),
{
    if results.len() > 0 {
        let few = results.drop_last();
        let before = with_score(few, terms, n);
        let out = with_score(results, terms, n);
        lemma_with_score(few, terms, n);
        assert forall|k: int| 0 <= k < out.len() implies results.contains(#[trigger] out[k])
            && score(out[k], terms) == n by {
            if k < before.len() {
                assert(out[k] == before[k]);
                let i = choose|i: int| 0 <= i < few.len() && few[i] == before[k];
                assert(results[i] == out[k]);
            } else {
                assert(results[results.len() - 1] == out[k]);
            }
        }
        assert forall|i: int|
            0 <= i < results.len() && score(#[trigger] results[i], terms)
                == n implies out.contains(results[i]) by {
            if i < few.len() {
                assert(few[i] == results[i]);
                let k = choose|k: int| 0 <= k < before.len() && before[k] == few[i];
                assert(out[k] == results[i]);
            } else {
                assert(out[before.len() as int] == results[i]);
            }
        }
    }
}

/// Ranked results are results of the list, with scores in the range, the best first, and are all
/// that have such scores.
proof fn lemma_ranked(results: Seq<ResultModel>, terms: Seq<Seq<char>>, max: int, min: int)
    ensures
        forall|k: int|
            0 <= k < ranked(results, terms, max, min).len() ==> results.contains(
                #[trigger] ranked(results, terms, max, min)[k],
            ) && min <= score(ranked(results, terms, max, min)[k], terms) <= max,
        forall|j: int, k: int|
            0 <= j < k < ranked(results, terms, max, min).len() ==> score(
                #[trigger] ranked(results, terms, max, min)[j],
                terms,
            ) >= score(#[trigger] ranked(results, terms, max, min)[k], terms),
        forall|i: int|
            0 <= i < results.len() && min <= score(#[trigger] results[i], terms) <= max ==> ranked(
                results,
                terms,
                max,
                min,
            ).contains(results[i]),
    decreases max - min + 1,
{
    if max >= min {
        let top = with_score(results, terms, max);
        let rest = ranked(results, terms, max - 1, min);
        let out = ranked(results, terms, max, min);
        lemma_with_score(results, terms, max);
        lemma_ranked(results, terms, max - 1, min);
        assert forall|k: int| 0 <= k < out.len() implies results.contains(#[trigger] out[k]) && min
            <= score(out[k], terms) <= max by {
            if k < top.len() {
                assert(out[k] == top[k]);
            } else {
                assert(out[k] == rest[k - top.len()]);
            }
        }
        assert forall|j: int, k: int| 0 <= j < k < out.len() implies score(
            #[trigger] out[j],
            terms,
        ) >= score(#[trigger] out[k], terms) by {
            if j < top.len() {
                assert(out[j] == top[j]);
            } else {
                assert(out[j] == rest[j - top.len()]);
                assert(out[k] == rest[k - top.len()]);
            }
        }
        assert forall|i: int|
            0 <= i < results.len() && min <= score(#[trigger] results[i], terms)
                <= max implies out.contains(results[i]) by {
            if score(results[i], terms) == max {
                assert(top.contains(results[i]));
                let k = choose|k: int| 0 <= k < top.len() && top[k] == results[i];
                assert(out[k] == results[i]);
            } else {
                assert(rest.contains(results[i]));
                let k = choose|k: int| 0 <= k < rest.len() && rest[k] == results[i];
                assert(out[top.len() + k] == results[i]);
            }
        }
    }
}

/// The relevant results are no more than asked for; they are results of the list, and each
/// mentions as many terms of the query as it must; those that mention more come first; and where
/// they are fewer than asked for, no result that mentions enough is missing.
pub proof fn law_relevant(results: Seq<ResultModel>, query: Seq<char>, limit: nat)
    ensures
        ({
            let terms = terms_of(words(query));
            let out = relevant(results, query, limit);
            &&& out.len() <= limit
            &&& forall|k: int|
                0 <= k < out.len() ==> results.contains(#[trigger] out[k]) && score(out[k], terms)
                    >= threshold(terms.len()) && score(out[k], terms) > 0
            &&& forall|j: int, k: int|
                0 <= j < k < out.len() ==> score(#[trigger] out[j], terms) >= score(
                    #[trigger] out[k],
                    terms,
                )
            &&& terms.len() > 0 && out.len() < limit ==> forall|i: int|
                0 <= i < results.len() && score(#[trigger] results[i], terms) >= threshold(
                    terms.len(),
                ) ==> out.contains(results[i])
        }),
{
    let terms = terms_of(words(query));
    if terms.len() > 0 {
        let (max, min) = (terms.len() as int, threshold(terms.len()) as int);
        let all = ranked(results, terms, max, min);
        let out = relevant(results, query, limit);
        lemma_ranked(results, terms, max, min);
        assert forall|k: int| 0 <= k < out.len() implies #[trigger] out[k] == all[k] by {}
        assert forall|i: int|
            0 <= i < results.len() && score(#[trigger] results[i], terms) >= min && out.len()
                < limit implies out.contains(results[i]) by {
            lemma_score_bound(results[i], terms);
            assert(all.contains(results[i]));
        }
    }
}

/// A result that mentions two terms of the query is relevant, however many terms the query has,
/// and one that mentions its only term is: where fewer results than asked for are relevant, all of
/// these are among them. And no others are.
pub proof fn law_two_terms_suffice(results: Seq<ResultModel>, query: Seq<char>, limit: nat)
    ensures
        ({
            let terms = terms_of(words(query));
            let out = relevant(results, query, limit);
            &&& out.len() < limit ==> forall|i: int|
                0 <= i < results.len() && (score(#[trigger] results[i], terms) >= 2 || terms.len()
                    == 1 && score(results[i], terms) == 1) ==> out.contains(results[i])
            &&& forall|k: int|
                0 <= k < out.len() ==> score(#[trigger] out[k], terms) >= 2 || terms.len() == 1
                    && score(out[k], terms) == 1
        }),
{
    let terms = terms_of(words(query));
    law_relevant(results, query, limit);
    assert forall|i: int| 0 <= i < results.len() implies score(#[trigger] results[i], terms)
        <= terms.len() by {
        lemma_score_bound(results[i], terms);
    }
    let out = relevant(results, query, limit);
    assert forall|k: int| 0 <= k < out.len() implies score(#[trigger] out[k], terms)
        <= terms.len() by {
        lemma_score_bound(out[k], terms);
    }
}

/// For a query with two terms or more a result must mention two, for one with one term that.
pub proof fn law_threshold(term_count: nat)
    ensures
        term_count >= 2 ==> threshold(term_count) == 2,
        term_count <= 1 ==> threshold(term_count) == term_count,
{
}

/// A result scores one for every term that stands in the lower case of its title, its snippet or
/// its address, and nothing for any other.
pub proof fn law_score(r: ResultModel, terms: Seq<Seq<char>>, term: Seq<char>)
    ensures
        score(r, Seq::empty()) == 0,
        score(r, terms.push(term)) == score(r, terms) + (if (exists|a: Seq<char>, b: Seq<char>|
            lowercase(r.title) == #[trigger] (a + term + b)) || (exists|a: Seq<char>, b: Seq<char>|
            lowercase(r.snippet) == #[trigger] (a + term + b)) || (exists|
            a: Seq<char>,
            b: Seq<char>,
        | lowercase(r.url) == #[trigger] (a + term + b)) {
            1int
        } else {
            0
        }),
{
    assert(terms.push(term).drop_last() =~= terms);
    law_contains_text(lowercase(r.title), term);
    law_contains_text(lowercase(r.snippet), term);
    law_contains_text(lowercase(r.url), term);
}

/// The places of the results with a score, in order.
proof fn lemma_places_with_score(
    results: Seq<ResultModel>,
    terms: Seq<Seq<char>>,
    n: int,
) -> (places: Seq<int>)
    ensures
        places.len() == with_score(results, terms, n).len(),
        forall|k: int|
            0 <= k < places.len() ==> 0 <= #[trigger] places[k] < results.len()
                && results[places[k]] == with_score(results, terms, n)[k] && score(
                results[places[k]],
                terms,
            ) == n,
        forall|j: int, k: int|
            0 <= j < k < places.len() ==> #[trigger] places[j] < #[trigger] places[k],
        forall|i: int|
            0 <= i < results.len() && score(#[trigger] results[i], terms) == n ==> places.contains(
                i,
            ),
    decreases results.len(),
{
    if results.len() == 0 {
        Seq::empty()
    } else {
        let few = results.drop_last();
        let before = lemma_places_with_score(few, terms, n);
        let last = results.len() - 1;
        let places = if score(results.last(), terms) == n {
            before.push(last)
        } else {
            before
        };
        assert forall|k: int| 0 <= k < places.len() implies 0 <= #[trigger] places[k]
            < results.len() && results[places[k]] == with_score(results, terms, n)[k] && score(
            results[places[k]],
            terms,
        ) == n by {
            if k < before.len() {
                assert(places[k] == before[k]);
                assert(few[before[k]] == results[before[k]]);
            }
        }
        assert forall|j: int, k: int| 0 <= j < k < places.len() implies #[trigger] places[j]
            < #[trigger] places[k] by {
            assert(places[j] == before[j]);
            if k < before.len() {
                assert(places[k] == before[k]);
            }
        }
        assert forall|i: int|
            0 <= i < results.len() && score(#[trigger] results[i], terms)
                == n implies places.contains(i) by {
            if i < last {
                assert(few[i] == results[i]);
                let k = choose|k: int| 0 <= k < before.len() && before[k] == i;
                assert(places[k] == i);
            } else {
                assert(places[before.len() as int] == i);
            }
        }
        places
    }
}

/// Whether the result at `i` is shown before the one at `j`: it mentions more terms, or as many
/// and stands before it.
pub open spec fn goes_before(
    results: Seq<ResultModel>,
    terms: Seq<Seq<char>>,
    i: int,
    j: int,
) -> bool {
    ||| score(results[i], terms) > score(results[j], terms)
    ||| score(results[i], terms) == score(results[j], terms) && i < j
}

/// The places of the ranked results, in the order in which they are ranked.
proof fn lemma_places_ranked(
    results: Seq<ResultModel>,
    terms: Seq<Seq<char>>,
    max: int,
    min: int,
) -> (places: Seq<int>)
    ensures
        places.len() == ranked(results, terms, max, min).len(),
        forall|k: int|
            0 <= k < places.len() ==> 0 <= #[trigger] places[k] < results.len()
                && results[places[k]] == ranked(results, terms, max, min)[k] && min <= score(
                results[places[k]],
                terms,
            ) <= max,
        forall|j: int, k: int|
            0 <= j < k < places.len() ==> goes_before(
                results,
                terms,
                #[trigger] places[j],
                #[trigger] places[k],
            ),
        forall|i: int|
            0 <= i < results.len() && min <= score(#[trigger] results[i], terms) <= max
                ==> places.contains(i),
    decreases max - min + 1,
{
    if max < min {
        Seq::empty()
    } else {
        let top = lemma_places_with_score(results, terms, max);
        let rest = lemma_places_ranked(results, terms, max - 1, min);
        let places = top + rest;
        let out = ranked(results, terms, max, min);
        assert forall|k: int| 0 <= k < places.len() implies 0 <= #[trigger] places[k]
            < results.len() && results[places[k]] == out[k] && min <= score(
            results[places[k]],
            terms,
        ) <= max by {
            if k < top.len() {
                assert(places[k] == top[k]);
            } else {
                assert(places[k] == rest[k - top.len()]);
            }
        }
        assert forall|j: int, k: int| 0 <= j < k < places.len() implies goes_before(
            results,
            terms,
            #[trigger] places[j],
            #[trigger] places[k],
        ) by {
            if k < top.len() {
                assert(places[j] == top[j] && places[k] == top[k]);
            } else if j < top.len() {
                assert(places[j] == top[j] && places[k] == rest[k - top.len()]);
            } else {
                assert(places[j] == rest[j - top.len()] && places[k] == rest[k - top.len()]);
            }
        }
        assert forall|i: int|
            0 <= i < results.len() && min <= score(#[trigger] results[i], terms)
                <= max implies places.contains(i) by {
            if score(results[i], terms) == max {
                let k = choose|k: int| 0 <= k < top.len() && top[k] == i;
                assert(places[k] == i);
            } else {
                let k = choose|k: int| 0 <= k < rest.len() && rest[k] == i;
                assert(places[top.len() + k] == i);
            }
        }
        places
    }
}

/// The relevant results stand at different places of the list, each once, those that mention more
/// terms first and those that mention as many in their order; and a result that mentions enough is
/// left out only where as many as asked for go before it.
pub proof fn law_relevant_order(
    results: Seq<ResultModel>,
    query: Seq<char>,
    limit: nat,
) -> (places: Seq<int>)
    ensures
        ({
            let terms = terms_of(words(query));
            let out = relevant(results, query, limit);
            &&& places.len() == out.len() <= limit
            &&& forall|k: int|
                0 <= k < places.len() ==> 0 <= #[trigger] places[k] < results.len()
                    && results[places[k]] == out[k]
            &&& forall|j: int, k: int|
                0 <= j < k < places.len() ==> goes_before(
                    results,
                    terms,
                    #[trigger] places[j],
                    #[trigger] places[k],
                )
            &&& forall|i: int|
                0 <= i < results.len() && (score(#[trigger] results[i], terms) >= 2 || terms.len()
                    == 1 && score(results[i], terms) == 1) ==> places.contains(i) || (places.len()
                    == limit && forall|k: int|
                    0 <= k < places.len() ==> goes_before(results, terms, #[trigger] places[k], i))
        }),
{
    let terms = terms_of(words(query));
    let out = relevant(results, query, limit);
    assert forall|i: int| 0 <= i < results.len() implies score(#[trigger] results[i], terms)
        <= terms.len() by {
        lemma_score_bound(results[i], terms);
    }
    if terms.len() == 0 {
        Seq::empty()
    } else {
        let min = threshold(terms.len()) as int;
        let all = lemma_places_ranked(results, terms, terms.len() as int, min);
        let places = all.take(out.len() as int);
        assert forall|k: int| 0 <= k < places.len() implies #[trigger] places[k] == all[k] by {}
        assert forall|i: int|
            0 <= i < results.len() && (score(#[trigger] results[i], terms) >= 2 || terms.len() == 1
                && score(results[i], terms) == 1) implies places.contains(i) || (places.len()
            == limit && forall|k: int|
            0 <= k < places.len() ==> goes_before(results, terms, #[trigger] places[k], i)) by {
            assert(all.contains(i));
            let m = choose|m: int| 0 <= m < all.len() && all[m] == i;
            if m < places.len() {
                assert(places[m] == i);
            } else {
                assert forall|k: int| 0 <= k < places.len() implies goes_before(
                    results,
                    terms,
                    #[trigger] places[k],
                    i,
                ) by {
                    assert(goes_before(results, terms, all[k], all[m]));
                }
            }
        }
        places
    }
}

/// Results with a score keep it to themselves: among those with another score there are none.
proof fn lemma_with_score_of(results: Seq<ResultModel>, terms: Seq<Seq<char>>, n: int)
    requires
        forall|i: int| 0 <= i < results.len() ==> score(#[trigger] results[i], terms) == n,
    ensures
        with_score(results, terms, n) == results,
        forall|m: int| m != n ==> (#[trigger] with_score(results, terms, m)).len() == 0,
    decreases results.len(),
{
    if results.len() > 0 {
        let few = results.drop_last();
        assert forall|i: int| 0 <= i < few.len() implies score(#[trigger] few[i], terms) == n by {
            assert(few[i] == results[i]);
        }
        lemma_with_score_of(few, terms, n);
        assert(score(results[results.len() - 1], terms) == n);
        assert(few.push(results.last()) =~= results);
        assert forall|m: int| m != n implies (#[trigger] with_score(results, terms, m)).len()
            == 0 by {
            assert(with_score(few, terms, m).len() == 0);
        }
    }
}

/// The results with a score of two lists, one behind the other.
proof fn lemma_with_score_add(
    a: Seq<ResultModel>,
    b: Seq<ResultModel>,
    terms: Seq<Seq<char>>,
    n: int,
)
    ensures
        with_score(a + b, terms, n) == with_score(a, terms, n) + with_score(b, terms, n),
    decreases b.len(),
{
    if b.len() == 0 {
        assert(a + b =~= a);
        assert(with_score(a + b, terms, n) =~= with_score(a, terms, n) + with_score(b, terms, n));
    } else {
        assert((a + b).drop_last() =~= a + b.drop_last());
        lemma_with_score_add(a, b.drop_last(), terms, n);
        assert(with_score(a + b, terms, n) =~= with_score(a, terms, n) + with_score(b, terms, n));
    }
}

/// Ranking keeps the results with a score, in their order.
proof fn lemma_ranked_with_score(
    results: Seq<ResultModel>,
    terms: Seq<Seq<char>>,
    max: int,
    min: int,
    n: int,
)
    ensures
        with_score(ranked(results, terms, max, min), terms, n) == (if min <= n <= max {
            with_score(results, terms, n)
        } else {
            Seq::empty()
        }),
    decreases max - min + 1,
{
    if max >= min {
        let top = with_score(results, terms, max);
        let rest = ranked(results, terms, max - 1, min);
        lemma_with_score(results, terms, max);
        lemma_with_score_of(top, terms, max);
        lemma_with_score_add(top, rest, terms, n);
        lemma_ranked_with_score(results, terms, max - 1, min, n);
        if n == max {
            assert(with_score(rest, terms, n) =~= Seq::empty());
            assert(top + Seq::empty() =~= top);
        } else {
            assert(with_score(top, terms, n) =~= Seq::empty());
            assert(Seq::empty() + with_score(rest, terms, n) =~= with_score(rest, terms, n));
        }
    }
}

/// Results that mention equally many terms of the query keep their order.
pub proof fn law_relevant_is_stable(
    results: Seq<ResultModel>,
    query: Seq<char>,
    limit: nat,
    n: int,
)
    ensures
        with_score(relevant(results, query, limit), terms_of(words(query)), n).is_prefix_of(
            with_score(results, terms_of(words(query)), n),
        ),
{
    let terms = terms_of(words(query));
    let out = relevant(results, query, limit);
    let kept = with_score(out, terms, n);
    if terms.len() > 0 {
        let (max, min) = (terms.len() as int, threshold(terms.len()) as int);
        let all = ranked(results, terms, max, min);
        let rest = all.skip(out.len() as int);
        lemma_ranked_with_score(results, terms, max, min, n);
        assert(out + rest =~= all);
        lemma_with_score_add(out, rest, terms, n);
        assert(with_score(all, terms, n) == kept + with_score(rest, terms, n));
    } else {
        assert(out.len() == 0);
    }
    assert(kept =~= with_score(results, terms, n).subrange(0, kept.len() as int));
}

/// Asking for fewer results gives the first of those that asking for more gives.
pub proof fn law_fewer_relevant_results(
    results: Seq<ResultModel>,
    query: Seq<char>,
    few: nat,
    many: nat,
)
    requires
        few <= many,
    ensures
        relevant(results, query, few) == at_most(relevant(results, query, many), few),
{
    let terms = terms_of(words(query));
    let all = ranked(results, terms, terms.len() as int, threshold(terms.len()) as int);
    if terms.len() > 0 {
        assert(at_most(all, few) =~= at_most(at_most(all, many), few));
    }
}

/// Results in the order of their scores are ranked.
proof fn lemma_ranked_stays(s: Seq<ResultModel>, terms: Seq<Seq<char>>, max: int, min: int)
    requires
        forall|i: int| 0 <= i < s.len() ==> min <= score(#[trigger] s[i], terms) <= max,
        forall|i: int, j: int|
            0 <= i < j < s.len() ==> score(#[trigger] s[i], terms) >= score(
                #[trigger] s[j],
                terms,
            ),
    ensures
        ranked(s, terms, max, min) == s,
    decreases s.len() + (if max >= min {
        max - min + 1
    } else {
        0
    }),
{
    if max < min {
        if s.len() > 0 {
            assert(min <= score(s[0], terms) <= max);
        }
        assert(s =~= Seq::empty());
    } else if s.len() > 0 && score(s[0], terms) == max {
        let head = seq![s[0]];
        let t = s.drop_first();
        assert forall|i: int| 0 <= i < t.len() implies min <= score(#[trigger] t[i], terms)
            <= max by {
            assert(t[i] == s[i + 1]);
        }
        assert forall|i: int, j: int| 0 <= i < j < t.len() implies score(#[trigger] t[i], terms)
            >= score(#[trigger] t[j], terms) by {
            assert(t[i] == s[i + 1]);
            assert(t[j] == s[j + 1]);
        }
        lemma_ranked_stays(t, terms, max, min);
        assert(s =~= head + t);
        lemma_with_score_of(head, terms, max);
        lemma_with_score_add(head, t, terms, max);
        lemma_ranked_below(head, t, terms, max, max - 1, min);
        assert(ranked(s, terms, max, min) =~= head + ranked(t, terms, max, min));
    } else {
        assert forall|i: int| 0 <= i < s.len() implies score(#[trigger] s[i], terms) <= max - 1 by {
            if i > 0 {
                assert(score(s[0], terms) >= score(s[i], terms));
            }
        }
        lemma_ranked_stays(s, terms, max - 1, min);
        lemma_with_score(s, terms, max);
        let top = with_score(s, terms, max);
        if top.len() > 0 {
            assert(s.contains(top[0]));
            let i = choose|i: int| 0 <= i < s.len() && s[i] == top[0];
            assert(score(s[i], terms) <= max - 1);
        }
        assert(top =~= Seq::empty());
        assert(ranked(s, terms, max, min) =~= s);
    }
}

/// Results with a higher score do not matter for the ranking of those with lower ones.
proof fn lemma_ranked_below(
    head: Seq<ResultModel>,
    t: Seq<ResultModel>,
    terms: Seq<Seq<char>>,
    n: int,
    max: int,
    min: int,
)
    requires
        forall|i: int| 0 <= i < head.len() ==> score(#[trigger] head[i], terms) == n,
        max < n,
    ensures
        ranked(head + t, terms, max, min) == ranked(t, terms, max, min),
    decreases max - min + 1,
{
    if max >= min {
        lemma_with_score_of(head, terms, n);
        lemma_with_score_add(head, t, terms, max);
        assert(with_score(head, terms, max) =~= Seq::empty());
        assert(with_score(head + t, terms, max) =~= with_score(t, terms, max));
        lemma_ranked_below(head, t, terms, n, max - 1, min);
    }
}

/// Filtering results that have been filtered changes nothing.
pub proof fn law_relevant_again(results: Seq<ResultModel>, query: Seq<char>, limit: nat)
    ensures
        relevant(relevant(results, query, limit), query, limit) == relevant(results, query, limit),
{
    let terms = terms_of(words(query));
    if terms.len() > 0 {
        let out = relevant(results, query, limit);
        law_relevant(results, query, limit);
        assert forall|i: int| 0 <= i < out.len() implies threshold(terms.len()) <= score(
            #[trigger] out[i],
            terms,
        ) <= terms.len() by {
            lemma_score_bound(out[i], terms);
        }
        lemma_ranked_stays(out, terms, terms.len() as int, threshold(terms.len()) as int);
    }
}

/// The best score is the largest: no result has a larger one, and one has it, unless it is zero.
pub proof fn law_best(results: Seq<ResultModel>, terms: Seq<Seq<char>>)
    ensures
        forall|i: int|
            0 <= i < results.len() ==> score(#[trigger] results[i], terms) <= best(results, terms),
        best(results, terms) > 0 ==> exists|i: int|
            0 <= i < results.len() && score(#[trigger] results[i], terms) == best(results, terms),
    decreases results.len(),
{
    if results.len() > 0 {
        let few = results.drop_last();
        law_best(few, terms);
        assert forall|i: int| 0 <= i < results.len() implies score(#[trigger] results[i], terms)
            <= best(results, terms) by {
            if i < few.len() {
                assert(few[i] == results[i]);
            }
        }
        if best(few, terms) < score(results.last(), terms) {
            assert(results[results.len() - 1] == results.last());
        } else if best(results, terms) > 0 {
            let i = choose|i: int|
                0 <= i < few.len() && score(#[trigger] few[i], terms) == best(few, terms);
            assert(results[i] == few[i]);
        }
    }
}

proof fn lemma_best(results: Seq<ResultModel>, terms: Seq<Seq<char>>)
    ensures
        forall|i: int|
            0 <= i < results.len() ==> score(#[trigger] results[i], terms) <= best(results, terms),
        best(results, terms) > 0 ==> exists|i: int|
            0 <= i < results.len() && score(#[trigger] results[i], terms) == best(results, terms),
{
    law_best(results, terms);
}

/// There are relevant results if and only if the best score reaches the threshold, where any are
/// asked for and the query has terms.
pub proof fn law_relevant_or_not(results: Seq<ResultModel>, query: Seq<char>, limit: nat)
    requires
        limit > 0,
        terms_of(words(query)).len() > 0,
    ensures
        relevant(results, query, limit).len() > 0 <==> best(results, terms_of(words(query)))
            >= threshold(terms_of(words(query)).len()),
{
    let terms = terms_of(words(query));
    let out = relevant(results, query, limit);
    let least = threshold(terms.len());
    law_relevant(results, query, limit);
    lemma_best(results, terms);
    if out.len() > 0 {
        assert(results.contains(out[0]));
        let i = choose|i: int| 0 <= i < results.len() && results[i] == out[0];
        assert(score(results[i], terms) <= best(results, terms));
    }
    if best(results, terms) >= least {
        let i = choose|i: int|
            0 <= i < results.len() && score(#[trigger] results[i], terms) == best(results, terms);
        if out.len() == 0 {
            assert(out.contains(results[i]));
        }
    }
}

/// Relevant results lead to different places where the results that they are taken from do.
pub proof fn law_relevant_results_differ(
    results: Seq<ResultModel>,
    query: Seq<char>,
    limit: nat,
)
    requires
        all_different(results),
    ensures
        all_different(relevant(results, query, limit)),
{
    let terms = terms_of(words(query));
    if terms.len() > 0 {
        let (max, min) = (terms.len() as int, threshold(terms.len()) as int);
        let all = ranked(results, terms, max, min);
        let out = relevant(results, query, limit);
        lemma_ranked_differ(results, terms, max, min);
        assert forall|i: int, j: int| 0 <= i < j < out.len() implies canonical(
            (#[trigger] out[i]).url,
        ) != canonical((#[trigger] out[j]).url) by {
            assert(out[i] == all[i]);
            assert(out[j] == all[j]);
        }
    }
}

proof fn lemma_with_score_differ(results: Seq<ResultModel>, terms: Seq<Seq<char>>, n: int)
    requires
        all_different(results),
    ensures
        all_different(with_score(results, terms, n)),
    decreases results.len(),
{
    if results.len() > 0 {
        let few = results.drop_last();
        assert forall|i: int, j: int| 0 <= i < j < few.len() implies canonical(
            (#[trigger] few[i]).url,
        ) != canonical((#[trigger] few[j]).url) by {
            assert(few[i] == results[i]);
            assert(few[j] == results[j]);
        }
        lemma_with_score_differ(few, terms, n);
        lemma_with_score(few, terms, n);
        let before = with_score(few, terms, n);
        let out = with_score(results, terms, n);
        assert forall|i: int, j: int| 0 <= i < j < out.len() implies canonical(
            (#[trigger] out[i]).url,
        ) != canonical((#[trigger] out[j]).url) by {
            assert(out[i] == before[i]);
            if j < before.len() {
                assert(out[j] == before[j]);
            } else {
                assert(few.contains(before[i]));
                let k = choose|k: int| 0 <= k < few.len() && few[k] == before[i];
                assert(results[k] == out[i]);
                assert(results[results.len() - 1] == out[j]);
            }
        }
    }
}

proof fn lemma_ranked_differ(
    results: Seq<ResultModel>,
    terms: Seq<Seq<char>>,
    max: int,
    min: int,
)
    requires
        all_different(results),
    ensures
        all_different(ranked(results, terms, max, min)),
    decreases max - min + 1,
{
    if max >= min {
        let top = with_score(results, terms, max);
        let rest = ranked(results, terms, max - 1, min);
        let out = ranked(results, terms, max, min);
        lemma_with_score_differ(results, terms, max);
        lemma_with_score(results, terms, max);
        lemma_ranked_differ(results, terms, max - 1, min);
        lemma_ranked(results, terms, max - 1, min);
        assert forall|i: int, j: int| 0 <= i < j < out.len() implies canonical(
            (#[trigger] out[i]).url,
        ) != canonical((#[trigger] out[j]).url) by {
            if j < top.len() {
                assert(out[i] == top[i]);
                assert(out[j] == top[j]);
            } else if i >= top.len() {
                assert(out[i] == rest[i - top.len()]);
                assert(out[j] == rest[j - top.len()]);
            } else {
                assert(out[i] == top[i]);
                assert(out[j] == rest[j - top.len()]);
                assert(results.contains(top[i]));
                assert(results.contains(rest[j - top.len()]));
                let a = choose|a: int| 0 <= a < results.len() && results[a] == out[i];
                let b = choose|b: int| 0 <= b < results.len() && results[b] == out[j];
                assert(a != b);
                if a < b {
                    assert(canonical(results[a].url) != canonical(results[b].url));
                } else {
                    assert(canonical(results[b].url) != canonical(results[a].url));
                }
            }
        }
    }
}

/// Where none of some results is relevant, those of more results that are relevant are those of
/// the others.
pub proof fn law_relevant_only_of_more(
    none: Seq<ResultModel>,
    more: Seq<ResultModel>,
    query: Seq<char>,
    limit: nat,
)
    requires
        limit > 0,
        relevant(none, query, limit).len() == 0,
    ensures
        relevant(none + more, query, limit) == relevant(more, query, limit),
{
    let terms = terms_of(words(query));
    if terms.len() > 0 {
        lemma_ranked_only_of_more(
            none,
            more,
            terms,
            terms.len() as int,
            threshold(terms.len()) as int,
        );
    }
}

proof fn lemma_ranked_only_of_more(
    none: Seq<ResultModel>,
    more: Seq<ResultModel>,
    terms: Seq<Seq<char>>,
    max: int,
    min: int,
)
    requires
        ranked(none, terms, max, min).len() == 0,
    ensures
        ranked(none + more, terms, max, min) == ranked(more, terms, max, min),
    decreases max - min + 1,
{
    if max >= min {
        lemma_with_score_add(none, more, terms, max);
        assert(with_score(none, terms, max) =~= Seq::empty());
        assert(with_score(none + more, terms, max) =~= with_score(more, terms, max));
        lemma_ranked_only_of_more(none, more, terms, max - 1, min);
    }
}

/// The terms of two lists of words are those of the one and then those of the other.
proof fn lemma_terms_add(a: Seq<Seq<char>>, b: Seq<Seq<char>>)
    ensures
        terms_of(a + b) == terms_of(a) + terms_of(b),
    decreases b.len(),
{
    if b.len() == 0 {
        assert(a + b =~= a);
        assert(terms_of(a) + terms_of(b) =~= terms_of(a));
    } else {
        assert((a + b).drop_last() =~= a + b.drop_last());
        lemma_terms_add(a, b.drop_last());
        assert(terms_of(a + b) =~= terms_of(a) + terms_of(b));
    }
}

/// The terms of two queries with a space between them are those of the one and then those of the
/// other.
pub proof fn law_terms_of_both(a: Seq<char>, b: Seq<char>)
    ensures
        terms_of(words(a + " "@ + b)) == terms_of(words(a)) + terms_of(words(b)),
{
    law_words_of_both(a, b);
    lemma_terms_add(words(a), words(b));
}

/// The core of a word is what is left without the signs before its first and behind its last
/// letter or digit.
proof fn lemma_core(before: Seq<char>, core: Seq<char>, after: Seq<char>)
    requires
        forall|i: int| 0 <= i < before.len() ==> !alphanumeric(#[trigger] before[i]),
        forall|i: int| 0 <= i < after.len() ==> !alphanumeric(#[trigger] after[i]),
        core.len() > 0 ==> alphanumeric(core.first()) && alphanumeric(core.last()),
    ensures
        core_of(before + core + after) == core,
    decreases before.len() + after.len(),
{
    let w = before + core + after;
    if before.len() > 0 {
        let t = before.drop_first();
        assert forall|i: int| 0 <= i < t.len() implies !alphanumeric(#[trigger] t[i]) by {
            assert(t[i] == before[i + 1]);
        }
        assert(!alphanumeric(before[0]));
        assert(w.drop_first() =~= t + core + after);
        lemma_core(t, core, after);
    } else if core.len() > 0 {
        assert(w.first() == core.first());
        if after.len() > 0 {
            let t = after.drop_last();
            assert forall|i: int| 0 <= i < t.len() implies !alphanumeric(#[trigger] t[i]) by {
                assert(t[i] == after[i]);
            }
            assert(!alphanumeric(after[after.len() - 1]));
            assert(w.last() == after.last());
            assert(w.drop_last() =~= before + core + t);
            assert((before + core + t).first() == core.first());
            lemma_core(before, core, t);
        } else {
            assert(w =~= core);
        }
    } else if after.len() > 0 {
        let t = after.drop_first();
        assert forall|i: int| 0 <= i < t.len() implies !alphanumeric(#[trigger] t[i]) by {
            assert(t[i] == after[i + 1]);
        }
        assert(!alphanumeric(after[0]));
        assert(w.drop_first() =~= before + core + t);
        lemma_core(before, core, t);
    } else {
        assert(w =~= core);
    }
}

/// A word of a query gives one term, in lower case, without the signs around it that are neither
/// letters nor digits, where that leaves three bytes or more; otherwise it gives none.
pub proof fn law_term_of_word(
    words_before: Seq<Seq<char>>,
    before: Seq<char>,
    core: Seq<char>,
    after: Seq<char>,
)
    requires
        forall|i: int| 0 <= i < before.len() ==> !alphanumeric(#[trigger] before[i]),
        forall|i: int| 0 <= i < after.len() ==> !alphanumeric(#[trigger] after[i]),
        core.len() > 0 ==> alphanumeric(core.first()) && alphanumeric(core.last()),
    ensures
        byte_len(core) >= 3 ==> terms_of(words_before.push(before + core + after)) == terms_of(
            words_before,
        ).push(lowercase(core)),
        byte_len(core) < 3 ==> terms_of(words_before.push(before + core + after)) == terms_of(
            words_before,
        ),
        terms_of(Seq::empty()) == Seq::<Seq<char>>::empty(),
{
    lemma_core(before, core, after);
    assert(words_before.push(before + core + after).drop_last() =~= words_before);
    assert(terms_of(Seq::empty()) =~= Seq::<Seq<char>>::empty());
}

/// The term of one word.
proof fn lemma_term_of_word(w: Seq<char>)
    ensures
        terms_of(seq![w]) == (if byte_len(core_of(w)) >= 3 {
            seq![lowercase(core_of(w))]
        } else {
            Seq::empty()
        }),
{
    let one = seq![w];
    assert(one.drop_last() =~= Seq::empty());
    assert(terms_of(one.drop_last()) =~= Seq::empty());
    assert(one.last() == w);
    assert(terms_of(one) =~= if byte_len(core_of(w)) >= 3 {
        seq![lowercase(core_of(w))]
    } else {
        Seq::empty()
    });
}

/// A quotation mark does not belong to the core of a word.
proof fn lemma_core_of_quoted(w: Seq<char>)
    ensures
        core_of(seq!['"'] + w) == core_of(w),
        core_of(w + seq!['"']) == core_of(w),
    decreases w.len(),
{
    let front = seq!['"'] + w;
    assert(front.drop_first() =~= w);
    let back = w + seq!['"'];
    lemma_core_start_quoted(w);
    if core_start(w).len() > 0 {
        assert(core_start(back).drop_last() =~= core_start(w));
        assert(core_end(core_start(back)) == core_end(core_start(w)));
    }
}

proof fn lemma_core_start_quoted(w: Seq<char>)
    ensures
        core_start(w + seq!['"']) == (if core_start(w).len() > 0 {
            core_start(w) + seq!['"']
        } else {
            Seq::empty()
        }),
    decreases w.len(),
{
    let back = w + seq!['"'];
    if w.len() == 0 {
        assert(back.drop_first() =~= Seq::empty());
        assert(core_start(back.drop_first()) =~= Seq::empty());
        assert(core_start(back) =~= Seq::empty());
    } else if !alphanumeric(w.first()) {
        assert(back.drop_first() =~= w.drop_first() + seq!['"']);
        lemma_core_start_quoted(w.drop_first());
    }
}

/// A quotation mark is a word without a term.
proof fn lemma_quotation_mark()
    ensures
        words(seq!['"']) == seq![seq!['"']],
        terms_of(seq![seq!['"']]) == Seq::<Seq<char>>::empty(),
{
    let mark = seq!['"'];
    lemma_word_len_is(mark, 1);
    assert(mark.take(1) =~= mark);
    assert(words(mark.skip(1)) =~= Seq::empty());
    assert(words(mark) =~= seq![mark]);
    lemma_core_of_quoted(Seq::empty());
    assert(seq!['"'] + Seq::empty() =~= mark);
    assert(core_of(mark) =~= Seq::empty());
    lemma_term_of_word(mark);
}

/// A quotation mark before a query does not change its terms.
proof fn lemma_terms_behind_mark(s: Seq<char>)
    ensures
        terms_of(words(seq!['"'] + s)) == terms_of(words(s)),
{
    let t = seq!['"'] + s;
    let none = Seq::<Seq<char>>::empty();
    lemma_quotation_mark();
    if s.len() == 0 {
        assert(t =~= seq!['"']);
        assert(terms_of(words(s)) =~= none);
    } else if white_space(s.first()) {
        assert(t[1] == s[0]);
        lemma_word_len_is(t, 1);
        assert(t.take(1) =~= seq!['"']);
        assert(t.skip(1) =~= s);
        lemma_terms_add(seq![seq!['"']], words(s));
        assert(none + terms_of(words(s)) =~= terms_of(words(s)));
    } else {
        lemma_word_len(s);
        let n = word_len(s) as int;
        assert forall|i: int| 0 <= i < n + 1 implies !white_space(#[trigger] t[i]) by {
            if i > 0 {
                assert(t[i] == s[i - 1]);
            }
        }
        if n < s.len() {
            assert(t[n + 1] == s[n]);
        }
        lemma_word_len_is(t, n + 1);
        let w = s.take(n);
        assert(t.take(n + 1) =~= seq!['"'] + w);
        assert(t.skip(n + 1) =~= s.skip(n));
        lemma_core_of_quoted(w);
        lemma_term_of_word(w);
        lemma_term_of_word(seq!['"'] + w);
        lemma_terms_add(seq![w], words(s.skip(n)));
        lemma_terms_add(seq![seq!['"'] + w], words(s.skip(n)));
    }
}

/// A quotation mark behind a query does not change its terms.
proof fn lemma_terms_before_mark(s: Seq<char>)
    ensures
        terms_of(words(s + seq!['"'])) == terms_of(words(s)),
    decreases s.len(),
{
    let t = s + seq!['"'];
    lemma_quotation_mark();
    if s.len() == 0 {
        assert(t =~= seq!['"']);
        assert(terms_of(words(s)) =~= Seq::empty());
    } else if white_space(s.first()) {
        assert(t.drop_first() =~= s.drop_first() + seq!['"']);
        lemma_terms_before_mark(s.drop_first());
    } else {
        lemma_word_len(s);
        let n = word_len(s) as int;
        assert forall|i: int| 0 <= i < n implies !white_space(#[trigger] t[i]) by {
            assert(t[i] == s[i]);
        }
        if n < s.len() {
            assert(t[n] == s[n]);
            lemma_word_len_is(t, n);
            let w = s.take(n);
            assert(t.take(n) =~= w);
            assert(t.skip(n) =~= s.skip(n) + seq!['"']);
            lemma_terms_before_mark(s.skip(n));
            lemma_terms_add(seq![w], words(s.skip(n)));
            lemma_terms_add(seq![w], words(t.skip(n)));
        } else {
            assert(t[n] == '"');
            lemma_word_len_is(t, n + 1);
            assert(t.take(n + 1) =~= t);
            assert(s.take(n) =~= s);
            assert(words(t.skip(n + 1)) =~= Seq::empty());
            assert(words(s.skip(n)) =~= Seq::empty());
            assert(words(t) =~= seq![t]);
            assert(words(s) =~= seq![s]);
            lemma_core_of_quoted(s);
            lemma_term_of_word(s);
            lemma_term_of_word(t);
        }
    }
}

/// Quotation marks around a query do not change its terms.
pub proof fn law_terms_of_quoted(query: Seq<char>)
    ensures
        terms_of(words("\""@ + query + "\""@)) == terms_of(words(query)),
{
    reveal_strlit("\"");
    assert("\""@ =~= seq!['"']);
    lemma_terms_before_mark(seq!['"'] + query);
    lemma_terms_behind_mark(query);
}

} // verus!
