//! Search results, and how the results of several providers are merged without duplicates.
use vstd::prelude::*;

use crate::text::same_text;
use crate::urls::canonical;
use crate::urls::canonicalize_for_dedupe;

verus! {

/// One result of a search.
#[derive(Debug)]
pub struct SearchResult {
    pub title: String,
    pub url: String,
    pub snippet: String,
    pub source: String,
}

/// The model of `SearchResult`.
#[verifier::ext_equal]
pub struct ResultModel {
    pub title: Seq<char>,
    pub url: Seq<char>,
    pub snippet: Seq<char>,
    pub source: Seq<char>,
}

impl View for SearchResult {
    type V = ResultModel;

    open spec fn view(&self) -> ResultModel {
        ResultModel {
            title: self.title@,
            url: self.url@,
            snippet: self.snippet@,
            source: self.source@,
        }
    }
}

impl Clone for SearchResult {
    fn clone(&self) -> (res: Self)
        ensures
            res == *self,
    {
        SearchResult {
            title: self.title.clone(),
            url: self.url.clone(),
            snippet: self.snippet.clone(),
            source: self.source.clone(),
        }
    }
}

/// The models of a list of results.
pub open spec fn models(results: Seq<SearchResult>) -> Seq<ResultModel> {
    results.map_values(|r: SearchResult| r@)
}

/// The models of a list of lists of results.
pub open spec fn group_models(groups: Seq<Vec<SearchResult>>) -> Seq<Seq<ResultModel>> {
    groups.map_values(|g: Vec<SearchResult>| models(g@))
}

// Merging.

/// The results at position `row` of those of `groups` that have one, in the order of the groups.
pub open spec fn row_of(groups: Seq<Seq<ResultModel>>, row: int) -> Seq<ResultModel>
    decreases groups.len(),
{
    if groups.len() == 0 {
        Seq::empty()
    } else {
        let before = row_of(groups.drop_last(), row);
        if 0 <= row < groups.last().len() {
            before.push(groups.last()[row])
        } else {
            before
        }
    }
}

/// The results of the first `rows` rows of `groups`, row by row.
pub open spec fn rows_of(groups: Seq<Seq<ResultModel>>, rows: nat) -> Seq<ResultModel>
    decreases rows,
{
    if rows == 0 {
        Seq::empty()
    } else {
        rows_of(groups, (rows - 1) as nat) + row_of(groups, rows - 1)
    }
}

/// The length of the longest of `groups`.
pub open spec fn longest(groups: Seq<Seq<ResultModel>>) -> nat
    decreases groups.len(),
{
    if groups.len() == 0 {
        0
    } else if longest(groups.drop_last()) < groups.last().len() {
        groups.last().len()
    } else {
        longest(groups.drop_last())
    }
}

/// The results of `groups`, taken from each group in turn.
pub open spec fn round_robin(groups: Seq<Seq<ResultModel>>) -> Seq<ResultModel> {
    rows_of(groups, longest(groups))
}

/// Whether a result leads where one of `results` leads.
pub open spec fn known(results: Seq<ResultModel>, r: ResultModel) -> bool {
    exists|i: int|
        0 <= i < results.len() && canonical((#[trigger] results[i]).url) == canonical(r.url)
}

/// `results` without those that lead where an earlier one leads.
pub open spec fn distinct(results: Seq<ResultModel>) -> Seq<ResultModel>
    decreases results.len(),
{
    if results.len() == 0 {
        Seq::empty()
    } else {
        let before = distinct(results.drop_last());
        if known(before, results.last()) {
            before
        } else {
            before.push(results.last())
        }
    }
}

/// The first `limit` of `results`, or all of them where there are no more.
pub open spec fn at_most<T>(results: Seq<T>, limit: nat) -> Seq<T> {
    if results.len() <= limit {
        results
    } else {
        results.take(limit as int)
    }
}

/// The results of `groups`, taken from each group in turn, without duplicates, up to `limit`.
pub open spec fn merged(groups: Seq<Seq<ResultModel>>, limit: nat) -> Seq<ResultModel> {
    at_most(distinct(round_robin(groups)), limit)
}

/// More results leave at least the results that fewer leave.
pub proof fn lemma_distinct_prefix(a: Seq<ResultModel>, b: Seq<ResultModel>)
    ensures
        distinct(a).is_prefix_of(distinct(a + b)),
    decreases b.len(),
{
    if b.len() == 0 {
        assert(a + b =~= a);
    } else {
        assert((a + b).drop_last() =~= a + b.drop_last());
        lemma_distinct_prefix(a, b.drop_last());
    }
}

/// More rows begin with the rows of fewer.
proof fn lemma_rows_prefix(groups: Seq<Seq<ResultModel>>, few: nat, many: nat)
    requires
        few <= many,
    ensures
        rows_of(groups, few).is_prefix_of(rows_of(groups, many)),
    decreases many,
{
    if few < many {
        lemma_rows_prefix(groups, few, (many - 1) as nat);
    }
}

/// Fewer groups give the beginning of a row.
proof fn lemma_row_prefix(groups: Seq<Seq<ResultModel>>, k: int, row: int)
    requires
        0 <= k <= groups.len(),
    ensures
        row_of(groups.take(k), row).is_prefix_of(row_of(groups, row)),
    decreases groups.len(),
{
    if k < groups.len() {
        assert(groups.drop_last().take(k) =~= groups.take(k));
        lemma_row_prefix(groups.drop_last(), k, row);
    } else {
        assert(groups.take(k) =~= groups);
    }
}

/// The length of the longest group.
fn longest_of(groups: &Vec<Vec<SearchResult>>) -> (res: usize)
    ensures
        res == longest(group_models(groups@)),
{
    let ghost ms = group_models(groups@);
    let mut res: usize = 0;
    let mut i: usize = 0;
    while i < groups.len()
        invariant
            i <= groups@.len(),
            ms == group_models(groups@),
            res == longest(ms.take(i as int)),
        decreases groups@.len() - i,
    {
        assert(ms.take(i + 1).drop_last() =~= ms.take(i as int));
        assert(ms[i as int].len() == groups@[i as int]@.len());
        if res < groups[i].len() {
            res = groups[i].len();
        }
        i += 1;
    }
    assert(ms.take(i as int) =~= ms);
    res
}

/// Whether one of `keys` is `key`.
fn has_key(keys: &Vec<String>, key: &str) -> (res: bool)
    ensures
        res == exists|i: int| 0 <= i < keys@.len() && (#[trigger] keys@[i])@ == key@,
{
    let mut i: usize = 0;
    while i < keys.len()
        invariant
            i <= keys@.len(),
            forall|j: int| 0 <= j < i ==> (#[trigger] keys@[j])@ != key@,
        decreases keys@.len() - i,
    {
        if same_text(keys[i].as_str(), key) {
            return true;
        }
        i += 1;
    }
    false
}

/// Whether `keys` are the canonical addresses of `results`.
pub open spec fn keys_of(keys: Seq<String>, results: Seq<SearchResult>) -> bool {
    keys.len() == results.len() && forall|i: int|
        0 <= i < keys.len() ==> (#[trigger] keys[i])@ == canonical(results[i].url@)
}

/// Adds a result unless it leads where one of those added before leads.
pub fn add_distinct(
    results: &mut Vec<SearchResult>,
    keys: &mut Vec<String>,
    item: SearchResult,
) -> (added: bool)
    requires
        keys_of(old(keys)@, old(results)@),
    ensures
        keys_of(final(keys)@, final(results)@),
        added == !known(models(old(results)@), item@),
        final(results)@ == (if added {
            old(results)@.push(item)
        } else {
            old(results)@
        }),
{
    let ghost ms = models(results@);
    let key = canonicalize_for_dedupe(item.url.as_str());
    if has_key(keys, key.as_str()) {
        proof {
            let i = choose|i: int| 0 <= i < keys@.len() && (#[trigger] keys@[i])@ == key@;
            assert(canonical(ms[i].url) == canonical(item@.url));
        }
        return false;
    }
    proof {
        if known(ms, item@) {
            let i = choose|i: int|
                0 <= i < ms.len() && canonical((#[trigger] ms[i]).url) == canonical(item@.url);
            assert(keys@[i]@ == key@);
        }
    }
    keys.push(key);
    results.push(item);
    true
}

/// The results of `groups`, taken from each group in turn, without duplicates, up to `limit`.
pub fn merge_results_round_robin(groups: Vec<Vec<SearchResult>>, limit: usize) -> (res: Vec<
    SearchResult,
>)
    ensures
        models(res@) == merged(group_models(groups@), limit as nat),
{
    let ghost ms = group_models(groups@);
    let ghost all = round_robin(ms);
    let mut merged: Vec<SearchResult> = Vec::new();
    let mut keys: Vec<String> = Vec::new();
    if limit == 0 {
        assert(models(merged@) =~= distinct(all).take(0));
        assert(models(merged@) =~= at_most(distinct(all), 0));
        return merged;
    }
    let rows: usize = longest_of(&groups);
    let mut row: usize = 0;
    assert(models(merged@) =~= distinct(rows_of(ms, 0)));
    while row < rows
        invariant
            row <= rows,
            limit > 0,
            rows == longest(ms),
            ms == group_models(groups@),
            all == rows_of(ms, rows as nat),
            all == round_robin(ms),
            keys_of(keys@, merged@),
            merged@.len() < limit,
            models(merged@) == distinct(rows_of(ms, row as nat)),
        decreases rows - row,
    {
        let ghost above = rows_of(ms, row as nat);
        let mut g: usize = 0;
        assert(ms.take(0) =~= Seq::<Seq<ResultModel>>::empty());
        assert(above + row_of(ms.take(0), row as int) =~= above);
        while g < groups.len()
            invariant
                g <= groups@.len(),
                row < rows,
                limit > 0,
                rows == longest(ms),
                ms == group_models(groups@),
                all == rows_of(ms, rows as nat),
                all == round_robin(ms),
                above == rows_of(ms, row as nat),
                keys_of(keys@, merged@),
                merged@.len() < limit,
                models(merged@) == distinct(above + row_of(ms.take(g as int), row as int)),
            decreases groups@.len() - g,
        {
            let ghost seen = above + row_of(ms.take(g as int), row as int);
            let ghost seen_next = above + row_of(ms.take(g + 1), row as int);
            assert(ms.take(g + 1).drop_last() =~= ms.take(g as int));
            assert(ms[g as int] == models(groups@[g as int]@));
            if row < groups[g].len() {
                let item = groups[g][row].clone();
                assert(seen_next.drop_last() =~= seen);
                assert(seen_next.last() == item@);
                let ghost before = merged@;
                let added: bool = add_distinct(&mut merged, &mut keys, item);
                assert(models(merged@) =~= distinct(seen_next));
                if added && merged.len() == limit {
                    proof {
                        lemma_row_prefix(ms, g + 1, row as int);
                        lemma_rows_prefix(ms, (row + 1) as nat, rows as nat);
                        assert(rows_of(ms, (row + 1) as nat) == above + row_of(ms, row as int));
                        assert(seen_next.is_prefix_of(all));
                        assert(all =~= seen_next + all.skip(seen_next.len() as int));
                        lemma_distinct_prefix(seen_next, all.skip(seen_next.len() as int));
                        assert(models(merged@) =~= at_most(distinct(all), limit as nat));
                    }
                    return merged;
                }
            } else {
                assert(seen_next =~= seen);
            }
            g += 1;
        }
        assert(ms.take(g as int) =~= ms);
        row += 1;
    }
    merged
}

/// Whether `groups` hold `limit` results or more that lead to different places.
pub fn has_enough_unique_results(groups: &Vec<Vec<SearchResult>>, limit: usize) -> (res: bool)
    ensures
        res == (limit > 0 && distinct(round_robin(group_models(groups@))).len() >= limit),
{
    if groups.len() == 0 || limit == 0 {
        assert(groups@.len() == 0 ==> round_robin(group_models(groups@)) =~= Seq::empty());
        return false;
    }
    let copy = copy_groups(groups);
    let unique = merge_results_round_robin(copy, limit);
    assert(unique@.len() == models(unique@).len());
    unique.len() >= limit
}

/// A copy of `groups`.
pub fn copy_groups(groups: &Vec<Vec<SearchResult>>) -> (res: Vec<Vec<SearchResult>>)
    ensures
        group_models(res@) == group_models(groups@),
{
    let ghost all = group_models(groups@);
    let mut res: Vec<Vec<SearchResult>> = Vec::new();
    let mut i: usize = 0;
    while i < groups.len()
        invariant
            i <= groups@.len(),
            all == group_models(groups@),
            group_models(res@) == all.take(i as int),
        decreases groups@.len() - i,
    {
        let ghost before = group_models(res@);
        let group = copy_results(&groups[i]);
        assert(models(group@) == all[i as int]);
        res.push(group);
        i += 1;
        assert(group_models(res@) =~= before.push(all[i - 1]));
        assert(group_models(res@) =~= all.take(i as int));
    }
    assert(group_models(res@) =~= all);
    res
}

/// A copy of `results`.
pub fn copy_results(results: &Vec<SearchResult>) -> (res: Vec<SearchResult>)
    ensures
        res@ == results@,
{
    let mut res: Vec<SearchResult> = Vec::new();
    let mut i: usize = 0;
    while i < results.len()
        invariant
            i <= results@.len(),
            res@ == results@.take(i as int),
        decreases results@.len() - i,
    {
        res.push(results[i].clone());
        i += 1;
        assert(res@ =~= results@.take(i as int));
    }
    res
}

// Laws.

/// Whether no two of `results` lead to the same place.
pub open spec fn all_different(results: Seq<ResultModel>) -> bool {
    forall|i: int, j: int|
        0 <= i < j < results.len() ==> canonical((#[trigger] results[i]).url) != canonical(
            (#[trigger] results[j]).url,
        )
}

/// Leaving out duplicates leaves results that lead to different places, all of them from the
/// list, and leaves one for every place that the list leads to.
pub proof fn law_distinct(results: Seq<ResultModel>)
    ensures
        all_different(distinct(results)),
        forall|i: int|
            0 <= i < distinct(results).len() ==> results.contains(#[trigger] distinct(results)[i]),
        forall|i: int| 0 <= i < results.len() ==> known(distinct(results), #[trigger] results[i]),
    decreases results.len(),
{
    if results.len() > 0 {
        let few = results.drop_last();
        let before = distinct(few);
        let r = results.last();
        let out = distinct(results);
        law_distinct(few);
        assert forall|i: int| 0 <= i < out.len() implies results.contains(#[trigger] out[i]) by {
            if i < before.len() {
                assert(out[i] == before[i]);
                let k = choose|k: int| 0 <= k < few.len() && few[k] == before[i];
                assert(results[k] == out[i]);
            } else {
                assert(results[results.len() - 1] == out[i]);
            }
        }
        assert forall|i: int| 0 <= i < results.len() implies known(out, #[trigger] results[i]) by {
            if i < few.len() {
                assert(few[i] == results[i]);
                let k = choose|k: int|
                    0 <= k < before.len() && canonical((#[trigger] before[k]).url) == canonical(
                        few[i].url,
                    );
                assert(out[k] == before[k]);
            } else if known(before, r) {
                assert(out == before);
            } else {
                assert(out[before.len() as int] == r);
            }
        }
        assert forall|i: int, j: int| 0 <= i < j < out.len() implies canonical(
            (#[trigger] out[i]).url,
        ) != canonical((#[trigger] out[j]).url) by {
            assert(out[i] == before[i]);
            if j < before.len() {
                assert(out[j] == before[j]);
            } else {
                assert(out[j] == r);
            }
        }
    }
}

/// Whether no result before the one at `i` leads where it leads.
pub open spec fn first_there(results: Seq<ResultModel>, i: int) -> bool {
    forall|j: int|
        0 <= j < i ==> canonical((#[trigger] results[j]).url) != canonical(results[i].url)
}

/// Of results that lead to the same place the first stays: each stands at a place of the list, in
/// its order, and a result is left out if and only if an earlier one leads where it leads.
#[verifier::rlimit(40)]
pub proof fn law_first_of_duplicates_stays(results: Seq<ResultModel>) -> (places: Seq<int>)
    ensures
        places.len() == distinct(results).len(),
        forall|k: int|
            0 <= k < places.len() ==> 0 <= #[trigger] places[k] < results.len()
                && results[places[k]] == distinct(results)[k],
        forall|j: int, k: int|
            0 <= j < k < places.len() ==> #[trigger] places[j] < #[trigger] places[k],
        forall|i: int|
            0 <= i < results.len() ==> (places.contains(i) <==> #[trigger] first_there(results, i)),
    decreases results.len(),
{
    if results.len() == 0 {
        Seq::empty()
    } else {
        let few = results.drop_last();
        let r = results.last();
        let last = results.len() - 1;
        let before = law_first_of_duplicates_stays(few);
        let places = if known(distinct(few), r) {
            before
        } else {
            before.push(last)
        };
        law_distinct(few);
        assert forall|k: int| 0 <= k < places.len() implies 0 <= #[trigger] places[k]
            < results.len() && results[places[k]] == distinct(results)[k] by {
            if k < before.len() {
                assert(places[k] == before[k]);
                assert(few[before[k]] == results[before[k]]);
            }
        }
        assert forall|j: int, k: int| 0 <= j < k < places.len() implies #[trigger] places[j]
            < #[trigger] places[k] by {
            assert(places[j] == before[j]);
            if k < before.len() {
                assert(places[k] == before[k]);
            }
        }
        assert forall|i: int| 0 <= i < results.len() implies (places.contains(i)
            <==> #[trigger] first_there(results, i)) by {
            if i < last {
                assert(few[i] == results[i]);
                assert forall|j: int| 0 <= j < i implies #[trigger] results[j] == few[j] by {}
                assert forall|j: int| 0 <= j < i implies #[trigger] few[j] == results[j] by {}
                assert(first_there(few, i) == first_there(results, i));
                if before.contains(i) {
                    let k = choose|k: int| 0 <= k < before.len() && before[k] == i;
                    assert(places[k] == i);
                }
                if places.contains(i) {
                    let k = choose|k: int| 0 <= k < places.len() && places[k] == i;
                    assert(k < before.len());
                    assert(before[k] == i);
                }
            } else {
                if known(distinct(few), r) {
                    let k = choose|k: int|
                        0 <= k < distinct(few).len() && canonical((#[trigger] distinct(few)[k]).url)
                            == canonical(r.url);
                    assert(few.contains(distinct(few)[k]));
                    let j = choose|j: int| 0 <= j < few.len() && few[j] == distinct(few)[k];
                    assert(results[j] == few[j]);
                    if places.contains(i) {
                        let m = choose|m: int| 0 <= m < places.len() && places[m] == i;
                        assert(before[m] == i);
                    }
                } else {
                    assert(places[before.len() as int] == i);
                    assert forall|j: int| 0 <= j < i implies canonical((#[trigger] results[j]).url)
                        != canonical(r.url) by {
                        assert(few[j] == results[j]);
                        assert(known(distinct(few), few[j]));
                        let m = choose|m: int|
                            0 <= m < distinct(few).len() && canonical(
                                (#[trigger] distinct(few)[m]).url,
                            ) == canonical(few[j].url);
                        if canonical(results[j].url) == canonical(r.url) {
                            assert(known(distinct(few), r));
                        }
                    }
                }
            }
        }
        places
    }
}

/// The groups that have a result in a row, in order.
proof fn lemma_groups_of_row(groups: Seq<Seq<ResultModel>>, row: int) -> (at: Seq<int>)
    requires
        0 <= row,
    ensures
        at.len() == row_of(groups, row).len(),
        forall|k: int|
            0 <= k < at.len() ==> 0 <= #[trigger] at[k] < groups.len() && row < groups[at[k]].len()
                && groups[at[k]][row] == row_of(groups, row)[k],
        forall|j: int, k: int| 0 <= j < k < at.len() ==> #[trigger] at[j] < #[trigger] at[k],
        forall|g: int|
            0 <= g < groups.len() && row < (#[trigger] groups[g]).len() ==> at.contains(g),
    decreases groups.len(),
{
    if groups.len() == 0 {
        Seq::empty()
    } else {
        let few = groups.drop_last();
        let last = groups.len() - 1;
        let before = lemma_groups_of_row(few, row);
        let at = if row < groups.last().len() {
            before.push(last)
        } else {
            before
        };
        assert forall|k: int| 0 <= k < at.len() implies 0 <= #[trigger] at[k] < groups.len() && row
            < groups[at[k]].len() && groups[at[k]][row] == row_of(groups, row)[k] by {
            if k < before.len() {
                assert(at[k] == before[k]);
                assert(few[before[k]] == groups[before[k]]);
            }
        }
        assert forall|j: int, k: int| 0 <= j < k < at.len() implies #[trigger] at[j]
            < #[trigger] at[k] by {
            assert(at[j] == before[j]);
            if k < before.len() {
                assert(at[k] == before[k]);
            }
        }
        assert forall|g: int|
            0 <= g < groups.len() && row < (#[trigger] groups[g]).len() implies at.contains(g) by {
            if g < last {
                assert(few[g] == groups[g]);
                let k = choose|k: int| 0 <= k < before.len() && before[k] == g;
                assert(at[k] == g);
            } else {
                assert(at[before.len() as int] == g);
            }
        }
        at
    }
}

/// Whether one turn comes before another: its row does, or it is an earlier group's in the row.
pub open spec fn earlier_turn(a: (int, int), b: (int, int)) -> bool {
    a.0 < b.0 || a.0 == b.0 && a.1 < b.1
}

/// Whether the result at `i` of the group `g` has its turn.
pub open spec fn has_turn(turns: Seq<(int, int)>, i: int, g: int) -> bool {
    exists|k: int| 0 <= k < turns.len() && (#[trigger] turns[k]).0 == i && turns[k].1 == g
}

/// The turns of rows of results, each a row and a group.
#[verifier::rlimit(40)]
proof fn lemma_turns(groups: Seq<Seq<ResultModel>>, rows: nat) -> (turns: Seq<(int, int)>)
    ensures
        turns.len() == rows_of(groups, rows).len(),
        forall|k: int|
            0 <= k < turns.len() ==> 0 <= (#[trigger] turns[k]).1 < groups.len() && 0 <= turns[k].0
                < rows && turns[k].0 < groups[turns[k].1].len() && groups[turns[k].1][turns[k].0]
                == rows_of(groups, rows)[k],
        forall|j: int, k: int|
            0 <= j < k < turns.len() ==> earlier_turn(#[trigger] turns[j], #[trigger] turns[k]),
        forall|g: int, i: int|
            0 <= g < groups.len() && 0 <= i < groups[g].len() && i < rows ==> #[trigger] has_turn(
                turns,
                i,
                g,
            ),
    decreases rows,
{
    if rows == 0 {
        Seq::empty()
    } else {
        let row = rows - 1;
        let above = lemma_turns(groups, row as nat);
        let at = lemma_groups_of_row(groups, row);
        let last = at.map_values(|g: int| (row, g));
        let turns = above + last;
        let out = rows_of(groups, rows);
        assert forall|k: int| 0 <= k < turns.len() implies 0 <= (#[trigger] turns[k]).1
            < groups.len() && 0 <= turns[k].0 < rows && turns[k].0 < groups[turns[k].1].len()
            && groups[turns[k].1][turns[k].0] == out[k] by {
            if k < above.len() {
                assert(turns[k] == above[k]);
            } else {
                assert(turns[k] == last[k - above.len()]);
                assert(0 <= at[k - above.len()] < groups.len());
            }
        }
        assert forall|j: int, k: int| 0 <= j < k < turns.len() implies earlier_turn(
            #[trigger] turns[j],
            #[trigger] turns[k],
        ) by {
            if k < above.len() {
                assert(turns[j] == above[j] && turns[k] == above[k]);
            } else if j < above.len() {
                assert(turns[j] == above[j] && turns[k] == last[k - above.len()]);
            } else {
                assert(turns[j] == last[j - above.len()] && turns[k] == last[k - above.len()]);
                assert(at[j - above.len()] < at[k - above.len()]);
            }
        }
        assert forall|g: int, i: int|
            0 <= g < groups.len() && 0 <= i < groups[g].len() && i
                < rows implies #[trigger] has_turn(turns, i, g) by {
            if i < row {
                assert(has_turn(above, i, g));
                let k = choose|k: int|
                    0 <= k < above.len() && (#[trigger] above[k]).0 == i && above[k].1 == g;
                assert(turns[k] == above[k]);
            } else {
                assert(at.contains(g));
                let k = choose|k: int| 0 <= k < at.len() && at[k] == g;
                assert(turns[above.len() + k] == last[k]);
            }
        }
        turns
    }
}

/// The groups take turns: every result of every group has its turn, exactly once, the first results
/// of the groups in the order of the groups, then the second ones, and so on.
pub proof fn law_groups_take_turns(groups: Seq<Seq<ResultModel>>) -> (turns: Seq<(int, int)>)
    ensures
        turns.len() == round_robin(groups).len(),
        forall|k: int|
            0 <= k < turns.len() ==> 0 <= (#[trigger] turns[k]).1 < groups.len() && 0 <= turns[k].0
                < groups[turns[k].1].len() && groups[turns[k].1][turns[k].0] == round_robin(
                groups,
            )[k],
        forall|j: int, k: int|
            0 <= j < k < turns.len() ==> earlier_turn(#[trigger] turns[j], #[trigger] turns[k]),
        forall|g: int, i: int|
            0 <= g < groups.len() && 0 <= i < groups[g].len() ==> #[trigger] has_turn(
                turns,
                i,
                g,
            ),
{
    let turns = lemma_turns(groups, longest(groups));
    lemma_longest(groups);
    assert forall|g: int, i: int|
        0 <= g < groups.len() && 0 <= i < groups[g].len() implies #[trigger] has_turn(turns, i, g) by {
        assert(groups[g].len() <= longest(groups));
    }
    turns
}

/// The first results of a list, as many as asked for where there are so many, and all where there
/// are not.
pub proof fn law_at_most<T>(results: Seq<T>, limit: nat)
    ensures
        at_most(results, limit).len() == (if results.len() < limit {
            results.len()
        } else {
            limit
        }),
        forall|k: int|
            0 <= k < at_most(results, limit).len() ==> #[trigger] at_most(results, limit)[k]
                == results[k],
{
}

/// Merged results are the first of the results of all groups, taken in turn and without
/// duplicates; they are as many as asked for, where there are so many.
pub proof fn law_merged_are_first(groups: Seq<Seq<ResultModel>>, limit: nat)
    ensures
        merged(groups, limit).len() == (if distinct(round_robin(groups)).len() < limit {
            distinct(round_robin(groups)).len()
        } else {
            limit
        }),
        forall|k: int|
            0 <= k < merged(groups, limit).len() ==> #[trigger] merged(groups, limit)[k] == distinct(
                round_robin(groups),
            )[k],
{
}

/// A list that leads to different places has no duplicates to leave out.
pub proof fn law_distinct_stays(results: Seq<ResultModel>)
    requires
        all_different(results),
    ensures
        distinct(results) == results,
    decreases results.len(),
{
    if results.len() > 0 {
        let few = results.drop_last();
        assert(all_different(few)) by {
            assert forall|i: int, j: int| 0 <= i < j < few.len() implies canonical(
                (#[trigger] few[i]).url,
            ) != canonical((#[trigger] few[j]).url) by {
                assert(few[i] == results[i]);
                assert(few[j] == results[j]);
            }
        }
        law_distinct_stays(few);
        if known(few, results.last()) {
            let k = choose|k: int|
                0 <= k < few.len() && canonical((#[trigger] few[k]).url) == canonical(
                    results.last().url,
                );
            assert(few[k] == results[k]);
            assert(results[results.len() - 1] == results.last());
        }
        assert(few.push(results.last()) =~= results);
    }
}

/// Whether a result stands in one of `groups`.
pub open spec fn in_groups(groups: Seq<Seq<ResultModel>>, r: ResultModel) -> bool {
    exists|g: int, i: int|
        0 <= g < groups.len() && 0 <= i < groups[g].len() && #[trigger] groups[g][i] == r
}

/// A row holds the results of the groups at its position, and nothing else.
proof fn lemma_row_of(groups: Seq<Seq<ResultModel>>, row: int)
    ensures
        forall|k: int|
            0 <= k < row_of(groups, row).len() ==> in_groups(
                groups,
                #[trigger] row_of(groups, row)[k],
            ),
        forall|g: int|
            0 <= g < groups.len() && 0 <= row < (#[trigger] groups[g]).len() ==> row_of(
                groups,
                row,
            ).contains(groups[g][row]),
    decreases groups.len(),
{
    if groups.len() > 0 {
        let few = groups.drop_last();
        let before = row_of(few, row);
        let out = row_of(groups, row);
        lemma_row_of(few, row);
        assert forall|k: int| 0 <= k < out.len() implies in_groups(groups, #[trigger] out[k]) by {
            if k < before.len() {
                assert(out[k] == before[k]);
                let (g, i) = choose|g: int, i: int|
                    0 <= g < few.len() && 0 <= i < few[g].len() && #[trigger] few[g][i]
                        == before[k];
                assert(groups[g][i] == out[k]);
            } else {
                assert(groups[groups.len() - 1][row] == out[k]);
            }
        }
        assert forall|g: int|
            0 <= g < groups.len() && 0 <= row < (#[trigger] groups[g]).len() implies out.contains(
            groups[g][row],
        ) by {
            if g < few.len() {
                assert(few[g] == groups[g]);
                let k = choose|k: int| 0 <= k < before.len() && before[k] == few[g][row];
                assert(out[k] == groups[g][row]);
            } else {
                assert(out[before.len() as int] == groups[g][row]);
            }
        }
    }
}

/// Rows hold the results of the groups at their positions, and nothing else.
proof fn lemma_rows_of(groups: Seq<Seq<ResultModel>>, rows: nat)
    ensures
        forall|k: int|
            0 <= k < rows_of(groups, rows).len() ==> in_groups(
                groups,
                #[trigger] rows_of(groups, rows)[k],
            ),
        forall|g: int, i: int|
            0 <= g < groups.len() && 0 <= i < groups[g].len() && i < rows ==> rows_of(
                groups,
                rows,
            ).contains(#[trigger] groups[g][i]),
    decreases rows,
{
    if rows > 0 {
        let above = rows_of(groups, (rows - 1) as nat);
        let last = row_of(groups, rows - 1);
        let out = rows_of(groups, rows);
        lemma_rows_of(groups, (rows - 1) as nat);
        lemma_row_of(groups, rows - 1);
        assert forall|k: int| 0 <= k < out.len() implies in_groups(groups, #[trigger] out[k]) by {
            if k < above.len() {
                assert(out[k] == above[k]);
            } else {
                assert(out[k] == last[k - above.len()]);
            }
        }
        assert forall|g: int, i: int|
            0 <= g < groups.len() && 0 <= i < groups[g].len() && i < rows implies out.contains(
            #[trigger] groups[g][i],
        ) by {
            let r = groups[g][i];
            if i < rows - 1 {
                assert(above.contains(groups[g][i]));
                let k = choose|k: int| 0 <= k < above.len() && above[k] == r;
                assert(out[k] == r);
            } else {
                assert(last.contains(groups[g][rows - 1]));
                let k = choose|k: int| 0 <= k < last.len() && last[k] == r;
                assert(out[above.len() + k] == r);
            }
        }
    }
}

/// No group is longer than the longest.
proof fn lemma_longest(groups: Seq<Seq<ResultModel>>)
    ensures
        forall|g: int| 0 <= g < groups.len() ==> (#[trigger] groups[g]).len() <= longest(groups),
    decreases groups.len(),
{
    if groups.len() > 0 {
        lemma_longest(groups.drop_last());
        assert forall|g: int| 0 <= g < groups.len() implies (#[trigger] groups[g]).len() <= longest(
            groups,
        ) by {
            if g < groups.len() - 1 {
                assert(groups.drop_last()[g] == groups[g]);
            }
        }
    }
}

/// Merged results are no more than asked for, lead to different places and come from the groups;
/// where they are fewer than asked for, they lead wherever a result of a group leads.
pub proof fn law_merged(groups: Seq<Seq<ResultModel>>, limit: nat)
    ensures
        merged(groups, limit).len() <= limit,
        all_different(merged(groups, limit)),
        forall|k: int|
            0 <= k < merged(groups, limit).len() ==> in_groups(
                groups,
                #[trigger] merged(groups, limit)[k],
            ),
        merged(groups, limit).len() < limit ==> forall|g: int, i: int|
            0 <= g < groups.len() && 0 <= i < groups[g].len() ==> known(
                merged(groups, limit),
                #[trigger] groups[g][i],
            ),
{
    let all = round_robin(groups);
    let out = merged(groups, limit);
    law_distinct(all);
    lemma_rows_of(groups, longest(groups));
    lemma_longest(groups);
    assert forall|k: int| 0 <= k < out.len() implies in_groups(groups, #[trigger] out[k]) by {
        assert(out[k] == distinct(all)[k]);
        let i = choose|i: int| 0 <= i < all.len() && all[i] == distinct(all)[k];
        assert(in_groups(groups, all[i]));
    }
    assert forall|i: int, j: int| 0 <= i < j < out.len() implies canonical((#[trigger] out[i]).url)
        != canonical((#[trigger] out[j]).url) by {
        assert(out[i] == distinct(all)[i]);
        assert(out[j] == distinct(all)[j]);
    }
    if out.len() < limit {
        assert(out == distinct(all));
        assert forall|g: int, i: int|
            0 <= g < groups.len() && 0 <= i < groups[g].len() implies known(
            out,
            #[trigger] groups[g][i],
        ) by {
            assert(groups[g].len() <= longest(groups));
            assert(all.contains(groups[g][i]));
            let k = choose|k: int| 0 <= k < all.len() && all[k] == groups[g][i];
            assert(known(distinct(all), all[k]));
        }
    }
}

/// Where the first group has results, its first result comes first.
pub proof fn law_first_result_leads(groups: Seq<Seq<ResultModel>>, limit: nat)
    requires
        groups.len() > 0,
        groups[0].len() > 0,
        limit > 0,
    ensures
        merged(groups, limit).len() > 0,
        merged(groups, limit)[0] == groups[0][0],
{
    let all = round_robin(groups);
    lemma_longest(groups);
    let first = row_of(groups, 0);
    lemma_row_prefix(groups, 1, 0);
    let one = groups.take(1);
    assert(one.drop_last() =~= Seq::empty());
    assert(one.last() == groups[0]);
    assert(row_of(one.drop_last(), 0) =~= Seq::empty());
    assert(row_of(one, 0) =~= seq![groups[0][0]]);
    assert(first.subrange(0, 1)[0] == groups[0][0]);
    lemma_rows_prefix(groups, 1, longest(groups));
    assert(rows_of(groups, 0) =~= Seq::empty());
    assert(rows_of(groups, 1) =~= first);
    assert(rows_of(groups, 1)[0] == all.subrange(0, first.len() as int)[0]);
    assert(all[0] == groups[0][0]);
    let head = all.take(1);
    assert(all =~= head + all.skip(1));
    lemma_distinct_prefix(head, all.skip(1));
    assert(head.drop_last() =~= Seq::empty());
    assert(!known(Seq::empty(), head.last()));
    assert(distinct(head.drop_last()) =~= Seq::empty());
    assert(distinct(head) =~= seq![groups[0][0]]);
    assert(distinct(head)[0] == distinct(all).subrange(0, 1)[0]);
}

} // verus!
