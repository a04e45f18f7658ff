//! Label names and values drawn from a set of matched streams.
//!
//! Shared by the Prometheus and Loki metadata endpoints, which scope the same way and must
//! answer the same way.
use vstd::prelude::*;

use crate::grouping::{
    label_views, lemma_sorted_groups, numbers, places, sort_groups, sorted_groups, sound_groups,
};
use crate::labels::{labels_before, lookup, Labels, Pair};
use crate::matcher::{all_match, matches_all, LabelMatcher, MatcherView};
use crate::text::{lemma_views_push, views};
use crate::textset::{add_text, sorted_set};

verus! {

/// The names of a label set, behind those of the sets before it.
pub open spec fn all_names(streams: Seq<Seq<Pair>>) -> Seq<Seq<char>>
    decreases streams.len(),
{
    if streams.len() == 0 {
        Seq::empty()
    } else {
        all_names(streams.drop_last()) + streams.last().map_values(|pair: Pair| pair.0)
    }
}

/// The values under a name, one per label set that has it.
pub open spec fn all_values(streams: Seq<Seq<Pair>>, name: Seq<char>) -> Seq<Seq<char>>
    decreases streams.len(),
{
    if streams.len() == 0 {
        Seq::empty()
    } else {
        match lookup(streams.last(), name) {
            Some(value) => all_values(streams.drop_last(), name).push(value),
            None => all_values(streams.drop_last(), name),
        }
    }
}

/// Adds the names of a label set to a sorted list.
pub(crate) fn add_names(
    list: &mut Vec<String>,
    labels: &Labels,
    Ghost(before): Ghost<Seq<Seq<char>>>,
)
    requires
        views(old(list)@) == sorted_set(before),
    ensures
        views(final(list)@) == sorted_set(before + labels@.map_values(|pair: Pair| pair.0)),
{
    let ghost names = labels@.map_values(|pair: Pair| pair.0);
    let mut i: usize = 0;
    assert(before + names.take(0) =~= before);
    while i < labels.len()
        invariant
            i <= labels@.len(),
            names == labels@.map_values(|pair: Pair| pair.0),
            views(list@) == sorted_set(before + names.take(i as int)),
        decreases labels@.len() - i,
    {
        proof {
            let next = before + names.take(i as int + 1);
            assert(next.drop_last() =~= before + names.take(i as int));
            assert(next.last() == labels@[i as int].0);
        }
        add_text(list, labels.name_at(i));
        i += 1;
    }
    assert(names.take(i as int) =~= names);
}

/// Every label name that any of the streams carries, sorted.
pub fn names_of(streams: &Vec<Labels>) -> (names: Vec<String>)
    ensures
        views(names@) == sorted_set(all_names(views(streams@))),
{
    let ghost all = views(streams@);
    let mut names: Vec<String> = Vec::new();
    let mut i: usize = 0;
    assert(views(names@) =~= sorted_set(all_names(all.take(0))));
    while i < streams.len()
        invariant
            i <= streams@.len(),
            all == views(streams@),
            views(names@) == sorted_set(all_names(all.take(i as int))),
        decreases streams@.len() - i,
    {
        proof {
            let next = all.take(i as int + 1);
            assert(next.drop_last() =~= all.take(i as int));
            assert(next.last() == streams@[i as int]@);
        }
        add_names(&mut names, &streams[i], Ghost(all_names(all.take(i as int))));
        i += 1;
    }
    assert(all.take(i as int) =~= all);
    names
}

/// Every value that `name` takes across the streams, sorted.
pub fn values_of(streams: &Vec<Labels>, name: &str) -> (values: Vec<String>)
    ensures
        views(values@) == sorted_set(all_values(views(streams@), name@)),
{
    let ghost all = views(streams@);
    let mut values: Vec<String> = Vec::new();
    let mut i: usize = 0;
    assert(views(values@) =~= sorted_set(all_values(all.take(0), name@)));
    while i < streams.len()
        invariant
            i <= streams@.len(),
            all == views(streams@),
            views(values@) == sorted_set(all_values(all.take(i as int), name@)),
        decreases streams@.len() - i,
    {
        proof {
            let next = all.take(i as int + 1);
            assert(next.drop_last() =~= all.take(i as int));
            assert(next.last() == streams@[i as int]@);
        }
        match streams[i].get(name) {
            Some(value) => {
                proof {
                    let seen = all_values(all.take(i as int), name@);
                    assert(seen.push(value@).drop_last() =~= seen);
                }
                add_text(&mut values, value);
            },
            None => {},
        }
        i += 1;
    }
    assert(all.take(i as int) =~= all);
    values
}

/// The label sets in order, each once.
pub open spec fn distinct(streams: Seq<Seq<Pair>>) -> Seq<Seq<Pair>> {
    sorted_groups(streams).map_values(|group: Seq<int>| streams[group[0]])
}

/// The label sets in order, each once.
pub fn distinct_streams(streams: &Vec<Labels>) -> (out: Vec<Labels>)
    ensures
        views(out@) == distinct(views(streams@)),
{
    let ghost all = views(streams@);
    let mut refs: Vec<&Labels> = Vec::new();
    let mut i: usize = 0;
    while i < streams.len()
        invariant
            i <= streams@.len(),
            refs@.len() == i,
            forall|j: int| 0 <= j < i ==> (#[trigger] refs@[j])@ == streams@[j]@,
        decreases streams@.len() - i,
    {
        refs.push(&streams[i]);
        i += 1;
    }
    assert(label_views(refs@) =~= all);
    let groups: Vec<Vec<usize>> = sort_groups(&refs);
    let ghost sorted = sorted_groups(all);
    proof {
        lemma_sorted_groups(all);
    }
    let mut out: Vec<Labels> = Vec::new();
    let mut g: usize = 0;
    while g < groups.len()
        invariant
            g <= groups@.len(),
            all == views(streams@),
            sorted == places(groups@),
            sound_groups(sorted, all, all.len() as int),
            out@.len() == g,
            forall|j: int| 0 <= j < g ==> (#[trigger] out@[j])@ == all[sorted[j][0]],
        decreases groups@.len() - g,
    {
        proof {
            assert(sorted[g as int] == numbers(groups@[g as int]@));
            assert(sorted[g as int].len() > 0);
            assert(sorted[g as int][0] == groups@[g as int]@[0]);
        }
        out.push(streams[groups[g][0]].clone());
        g += 1;
    }
    assert(views(out@) =~= distinct(all));
    out
}

/// The matchers of each selector.
pub open spec fn matcher_sets(sets: Seq<Vec<LabelMatcher>>) -> Seq<Seq<MatcherView>> {
    sets.map_values(|set: Vec<LabelMatcher>| views(set@))
}

/// Whether some selector accepts a label set. No selectors accept every one.
pub open spec fn accepted(sets: Seq<Seq<MatcherView>>, labels: Seq<Pair>) -> bool {
    sets.len() == 0 || exists|i: int| 0 <= i < sets.len() && all_match(#[trigger] sets[i], labels)
}

/// The label sets that some selector accepts.
pub open spec fn accepted_streams(
    streams: Seq<Seq<Pair>>,
    sets: Seq<Seq<MatcherView>>,
) -> Seq<Seq<Pair>>
    decreases streams.len(),
{
    if streams.len() == 0 {
        streams
    } else if accepted(sets, streams.last()) {
        accepted_streams(streams.drop_last(), sets).push(streams.last())
    } else {
        accepted_streams(streams.drop_last(), sets)
    }
}

fn is_accepted(sets: &Vec<Vec<LabelMatcher>>, labels: &Labels) -> (r: bool)
    ensures
        r == accepted(matcher_sets(sets@), labels@),
{
    if sets.len() == 0 {
        return true;
    }
    let ghost all = matcher_sets(sets@);
    let mut i: usize = 0;
    while i < sets.len()
        invariant
            i <= sets@.len(),
            sets@.len() > 0,
            all == matcher_sets(sets@),
            forall|j: int| 0 <= j < i ==> !all_match(#[trigger] all[j], labels@),
        decreases sets@.len() - i,
    {
        assert(all[i as int] == views(sets@[i as int]@));
        if matches_all(&sets[i], labels) {
            assert(all_match(all[i as int], labels@));
            return true;
        }
        i += 1;
    }
    false
}

/// The label sets that some selector accepts, in order, each once.
pub fn series_of(streams: &Vec<Labels>, sets: &Vec<Vec<LabelMatcher>>) -> (out: Vec<Labels>)
    ensures
        views(out@) == distinct(accepted_streams(views(streams@), matcher_sets(sets@))),
{
    let ghost all = views(streams@);
    let ghost wanted = matcher_sets(sets@);
    let mut kept: Vec<Labels> = Vec::new();
    let mut i: usize = 0;
    assert(views(kept@) =~= all.take(0));
    while i < streams.len()
        invariant
            i <= streams@.len(),
            all == views(streams@),
            wanted == matcher_sets(sets@),
            views(kept@) == accepted_streams(all.take(i as int), wanted),
        decreases streams@.len() - i,
    {
        proof {
            let next = all.take(i as int + 1);
            assert(next.drop_last() =~= all.take(i as int));
            assert(next.last() == streams@[i as int]@);
        }
        if is_accepted(sets, &streams[i]) {
            let ghost done = kept@;
            kept.push(streams[i].clone());
            proof {
                lemma_views_push(done, kept@.last());
            }
        }
        i += 1;
    }
    assert(all.take(i as int) =~= all);
    distinct_streams(&kept)
}

// ---------------------------------------------------------------------------
// Laws
// ---------------------------------------------------------------------------

/// Distinct label sets are in order and are those that were there.
pub proof fn law_distinct_streams(streams: Seq<Seq<Pair>>, labels: Seq<Pair>)
    ensures
        forall|a: int, b: int|
            0 <= a < b < distinct(streams).len() ==> labels_before(
                #[trigger] distinct(streams)[a],
                #[trigger] distinct(streams)[b],
            ),
        distinct(streams).contains(labels) == streams.contains(labels),
{
    crate::grouping::law_sorted_groups(streams);
    lemma_sorted_groups(streams);
    let groups = sorted_groups(streams);
    let out = distinct(streams);
    assert forall|a: int, b: int| 0 <= a < b < out.len() implies labels_before(
        #[trigger] out[a],
        #[trigger] out[b],
    ) by {
        assert(out[a] == streams[groups[a][0]]);
        assert(out[b] == streams[groups[b][0]]);
    }
    if out.contains(labels) {
        let g = choose|g: int| 0 <= g < out.len() && out[g] == labels;
        assert(groups[g].len() > 0);
        assert(0 <= groups[g][0] < streams.len());
        assert(out[g] == streams[groups[g][0]]);
    }
    if streams.contains(labels) {
        let i = choose|i: int| 0 <= i < streams.len() && streams[i] == labels;
        let g = choose|g: int|
            0 <= g < groups.len() && streams[(#[trigger] groups[g])[0]] == streams[i]
                && groups[g].contains(i);
        assert(out[g] == streams[groups[g][0]]);
    }
}

} // verus!
