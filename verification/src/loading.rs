//! Series that are built from a part of the samples are that part of the series.
use vstd::prelude::*;

use crate::grouping::{
    by_labels, chosen, grouped, heads, law_every_item_is_grouped, law_groups_have_distinct_keys,
    law_sorted_groups, lemma_grouped, lemma_ordered_places, lemma_sorted_groups, ordered, placed,
    put_in_order, sorted_groups,
};
use crate::labels::{labels_before, law_labels_order_total, Pair};
use crate::lexer::saturated;
use crate::matcher::{all_match, MatcherView};
use crate::otlp_encode::sample_streams;
use crate::promeval::{
    evaluated, in_time, one_series, points_of, pushdown, series_of, Calc, Literals, SeriesView,
};
use crate::promql::{arities_match, selectors_of, widest_reach, ExprView};
use crate::reading::{law_the_planned_read_is_enough, looks_within, narrowed, samples_within};
use crate::record::SampleView;
use crate::seconds::minus;

verus! {

// ---------------------------------------------------------------------------
// Parts of the samples
// ---------------------------------------------------------------------------

/// The samples of one series.
pub open spec fn of_series(samples: Seq<SampleView>, labels: Seq<Pair>) -> Seq<SampleView>
    decreases samples.len(),
{
    if samples.len() == 0 {
        samples
    } else if samples.last().series == labels {
        of_series(samples.drop_last(), labels).push(samples.last())
    } else {
        of_series(samples.drop_last(), labels)
    }
}

/// The samples of a time range.
pub open spec fn within(samples: Seq<SampleView>, from: u64, end: u64) -> Seq<SampleView>
    decreases samples.len(),
{
    if samples.len() == 0 {
        samples
    } else if from <= samples.last().timestamp_nanos <= end {
        within(samples.drop_last(), from, end).push(samples.last())
    } else {
        within(samples.drop_last(), from, end)
    }
}

/// What a read returns: the samples of a time range whose series the matchers accept.
pub open spec fn read_of(
    samples: Seq<SampleView>,
    matchers: Seq<MatcherView>,
    from: u64,
    end: u64,
) -> Seq<SampleView>
    decreases samples.len(),
{
    if samples.len() == 0 {
        samples
    } else {
        let rest = read_of(samples.drop_last(), matchers, from, end);
        let last = samples.last();
        if all_match(matchers, last.series) && from <= last.timestamp_nanos <= end {
            rest.push(last)
        } else {
            rest
        }
    }
}

/// What is read of an accepted series is its samples of the time range.
proof fn lemma_read_of_series(
    samples: Seq<SampleView>,
    matchers: Seq<MatcherView>,
    from: u64,
    end: u64,
    labels: Seq<Pair>,
)
    ensures
        of_series(read_of(samples, matchers, from, end), labels) == (if all_match(matchers, labels) {
            within(of_series(samples, labels), from, end)
        } else {
            Seq::empty()
        }),
    decreases samples.len(),
{
    if samples.len() > 0 {
        let front = samples.drop_last();
        let last = samples.last();
        lemma_read_of_series(front, matchers, from, end, labels);
        let rest = read_of(front, matchers, from, end);
        if all_match(matchers, last.series) && from <= last.timestamp_nanos <= end {
            assert(rest.push(last).drop_last() =~= rest);
        }
        if last.series == labels {
            let own = of_series(front, labels);
            assert(own.push(last).drop_last() =~= own);
        }
    }
}

/// A series has samples exactly where there is one of it.
proof fn lemma_of_series(samples: Seq<SampleView>, labels: Seq<Pair>)
    ensures
        of_series(samples, labels).len() > 0 <==> exists|i: int|
            0 <= i < samples.len() && (#[trigger] samples[i]).series == labels,
    decreases samples.len(),
{
    if samples.len() > 0 {
        let front = samples.drop_last();
        lemma_of_series(front, labels);
        let n = samples.len() - 1;
        if samples.last().series == labels {
            assert(samples[n].series == labels);
        } else {
            if exists|i: int| 0 <= i < samples.len() && (#[trigger] samples[i]).series == labels {
                let i = choose|i: int|
                    0 <= i < samples.len() && (#[trigger] samples[i]).series == labels;
                assert(front[i].series == labels);
            }
            if exists|i: int| 0 <= i < front.len() && (#[trigger] front[i]).series == labels {
                let i = choose|i: int|
                    0 <= i < front.len() && (#[trigger] front[i]).series == labels;
                assert(samples[i].series == labels);
            }
        }
    }
}

// ---------------------------------------------------------------------------
// Groups
// ---------------------------------------------------------------------------

/// An item goes into the group of its key, or into one of its own.
proof fn lemma_placed_where<K>(groups: Seq<Seq<int>>, keys: Seq<K>, i: int) -> (g: int)
    ensures
        0 <= g <= groups.len(),
        g < groups.len() ==> keys[groups[g][0]] == keys[i] && placed(groups, keys, i)
            == groups.update(g, groups[g].push(i)),
        g == groups.len() ==> placed(groups, keys, i) == groups.push(seq![i]) && (forall|h: int|
            0 <= h < groups.len() ==> keys[(#[trigger] groups[h])[0]] != keys[i]),
    decreases groups.len(),
{
    if groups.len() == 0 {
        assert(placed(groups, keys, i) =~= groups.push(seq![i]));
        0
    } else if keys[groups[0][0]] == keys[i] {
        assert(placed(groups, keys, i) =~= groups.update(0, groups[0].push(i)));
        0
    } else {
        let rest = groups.drop_first();
        let h = lemma_placed_where(rest, keys, i);
        let after = placed(groups, keys, i);
        if h < rest.len() {
            assert(after =~= groups.update(h + 1, groups[h + 1].push(i)));
        } else {
            assert(after =~= groups.push(seq![i]));
            assert forall|k: int| 0 <= k < groups.len() implies keys[(#[trigger] groups[k])[0]]
                != keys[i] by {
                if k > 0 {
                    assert(rest[k - 1] == groups[k]);
                }
            }
        }
        h + 1
    }
}

/// A group holds the samples of its series, in the order in which they stood.
proof fn lemma_group_is_series(samples: Seq<SampleView>, n: nat, g: int)
    requires
        n <= samples.len(),
        0 <= g < grouped(sample_streams(samples), n).len(),
    ensures
        ({
            let group = grouped(sample_streams(samples), n)[g];
            chosen(samples, group) == of_series(
                samples.take(n as int),
                samples[group[0]].series,
            )
        }),
    decreases n,
{
    let keys = sample_streams(samples);
    if n > 0 {
        let m = (n - 1) as nat;
        let before = grouped(keys, m);
        let after = grouped(keys, n);
        let last = samples[n - 1];
        lemma_grouped(keys, m);
        lemma_grouped(keys, n);
        law_groups_have_distinct_keys(keys, n);
        let at = lemma_placed_where(before, keys, n - 1);
        let seen = samples.take(n as int);
        assert(seen.drop_last() =~= samples.take(m as int));
        assert(seen.last() == last);
        let group = after[g];
        assert(group.len() > 0);
        assert(0 <= group[0] < n);
        let labels = samples[group[0]].series;
        assert(keys[group[0]] == labels);
        assert(keys[n - 1] == last.series);
        if g < before.len() {
            assert(before[g].len() > 0);
            lemma_group_is_series(samples, m, g);
            if g == at {
                assert(group == before[g].push(n - 1));
                assert(group[0] == before[g][0]);
                assert(chosen(samples, group) =~= chosen(samples, before[g]).push(last));
            } else {
                assert(group == before[g]);
                if at < before.len() {
                    assert(after[at] == before[at].push(n - 1));
                    assert(before[at].len() > 0);
                    assert(after[at][0] == before[at][0]);
                    if g < at {
                        assert(keys[after[g][0]] != keys[after[at][0]]);
                    } else {
                        assert(keys[after[at][0]] != keys[after[g][0]]);
                    }
                    assert(keys[before[at][0]] == keys[n - 1]);
                }
                assert(last.series != labels);
            }
        } else {
            assert(at == before.len());
            assert(group == seq![n - 1]);
            assert(chosen(samples, group) =~= seq![last]);
            let earlier = samples.take(m as int);
            lemma_of_series(earlier, labels);
            if of_series(earlier, labels).len() > 0 {
                let i = choose|i: int|
                    0 <= i < earlier.len() && (#[trigger] earlier[i]).series == labels;
                assert(keys[i] == labels);
                law_every_item_is_grouped(keys, m, i);
                let (h, k) = choose|h: int, k: int|
                    0 <= h < before.len() && 0 <= k < before[h].len() && #[trigger] before[h][k]
                        == i;
                assert(before[h].len() > 0);
                assert(keys[before[h][k]] == keys[before[h][0]]);
                assert(keys[before[h][0]] != keys[n - 1]);
            }
            assert(of_series(earlier, labels) =~= Seq::<SampleView>::empty());
            assert(of_series(seen, labels) =~= seq![last]);
        }
    }
}

// ---------------------------------------------------------------------------
// Time order
// ---------------------------------------------------------------------------

/// The samples with one put before the first that is later.
spec fn put_sample(list: Seq<SampleView>, sample: SampleView) -> Seq<SampleView>
    decreases list.len(),
{
    if list.len() == 0 {
        seq![sample]
    } else if sample.timestamp_nanos < list[0].timestamp_nanos {
        seq![sample] + list
    } else {
        seq![list[0]] + put_sample(list.drop_first(), sample)
    }
}

/// The samples in time order, those of one time as they stood.
spec fn timed(samples: Seq<SampleView>) -> Seq<SampleView>
    decreases samples.len(),
{
    if samples.len() == 0 {
        samples
    } else {
        put_sample(timed(samples.drop_last()), samples.last())
    }
}

spec fn ascends(list: Seq<SampleView>) -> bool {
    forall|i: int, j: int|
        0 <= i < j < list.len() ==> (#[trigger] list[i]).timestamp_nanos <= (
        #[trigger] list[j]).timestamp_nanos
}

proof fn lemma_put_chosen(
    own: Seq<SampleView>,
    list: Seq<int>,
    i: int,
    less: spec_fn(int, int) -> bool,
)
    requires
        forall|a: int, b: int| #[trigger]
            less(a, b) == (own[a].timestamp_nanos < own[b].timestamp_nanos),
    ensures
        chosen(own, put_in_order(list, i, less)) == put_sample(chosen(own, list), own[i]),
    decreases list.len(),
{
    let seen = chosen(own, list);
    if list.len() == 0 {
        assert(chosen(own, seq![i]) =~= seq![own[i]]);
    } else {
        let rest = list.drop_first();
        assert(seen.drop_first() =~= chosen(own, rest));
        assert(seen[0] == own[list[0]]);
        lemma_put_chosen(own, rest, i, less);
        if less(i, list[0]) {
            assert(chosen(own, seq![i] + list) =~= seq![own[i]] + seen);
        } else {
            let more = put_in_order(rest, i, less);
            assert(chosen(own, seq![list[0]] + more) =~= seq![own[list[0]]] + chosen(own, more));
        }
    }
}

proof fn lemma_in_time_is_timed(own: Seq<SampleView>, n: nat, less: spec_fn(int, int) -> bool)
    requires
        n <= own.len(),
        forall|a: int, b: int| #[trigger]
            less(a, b) == (own[a].timestamp_nanos < own[b].timestamp_nanos),
    ensures
        chosen(own, ordered(n, less)) == timed(own.take(n as int)),
    decreases n,
{
    if n == 0 {
        assert(chosen(own, ordered(n, less)) =~= timed(own.take(0)));
    } else {
        let m = (n - 1) as nat;
        lemma_in_time_is_timed(own, m, less);
        lemma_put_chosen(own, ordered(m, less), n - 1, less);
        let seen = own.take(n as int);
        assert(seen.drop_last() =~= own.take(m as int));
        assert(seen.last() == own[n - 1]);
    }
}

proof fn lemma_put_ascends(list: Seq<SampleView>, sample: SampleView)
    requires
        ascends(list),
    ensures
        ascends(put_sample(list, sample)),
        forall|k: int|
            0 <= k < put_sample(list, sample).len() ==> (#[trigger] put_sample(list, sample)[k]
                == sample || list.contains(put_sample(list, sample)[k])),
    decreases list.len(),
{
    let out = put_sample(list, sample);
    if list.len() == 0 {
    } else if sample.timestamp_nanos < list[0].timestamp_nanos {
        assert forall|i: int, j: int| 0 <= i < j < out.len() implies (
        #[trigger] out[i]).timestamp_nanos <= (#[trigger] out[j]).timestamp_nanos by {
            assert(out[j] == list[j - 1]);
            if i > 0 {
                assert(out[i] == list[i - 1]);
            } else if j > 1 {
                assert(list[0].timestamp_nanos <= list[j - 1].timestamp_nanos);
            }
        }
        assert forall|k: int| 0 <= k < out.len() implies (#[trigger] out[k] == sample
            || list.contains(out[k])) by {
            if k > 0 {
                assert(out[k] == list[k - 1]);
            }
        }
    } else {
        let rest = list.drop_first();
        assert forall|i: int, j: int| 0 <= i < j < rest.len() implies (
        #[trigger] rest[i]).timestamp_nanos <= (#[trigger] rest[j]).timestamp_nanos by {
            assert(rest[i] == list[i + 1] && rest[j] == list[j + 1]);
        }
        lemma_put_ascends(rest, sample);
        let more = put_sample(rest, sample);
        assert forall|k: int| 0 <= k < out.len() implies (#[trigger] out[k] == sample
            || list.contains(out[k])) by {
            if k == 0 {
                assert(out[0] == list[0]);
            } else {
                assert(out[k] == more[k - 1]);
                if more[k - 1] != sample {
                    let at = choose|at: int| 0 <= at < rest.len() && rest[at] == more[k - 1];
                    assert(list[at + 1] == out[k]);
                }
            }
        }
        assert forall|i: int, j: int| 0 <= i < j < out.len() implies (
        #[trigger] out[i]).timestamp_nanos <= (#[trigger] out[j]).timestamp_nanos by {
            assert(out[j] == more[j - 1]);
            if i > 0 {
                assert(out[i] == more[i - 1]);
            } else {
                assert(out[0] == list[0]);
                if more[j - 1] != sample {
                    let at = choose|at: int| 0 <= at < rest.len() && rest[at] == more[j - 1];
                    assert(list[0].timestamp_nanos <= list[at + 1].timestamp_nanos);
                }
            }
        }
    }
}

proof fn lemma_timed_ascends(samples: Seq<SampleView>)
    ensures
        ascends(timed(samples)),
    decreases samples.len(),
{
    if samples.len() > 0 {
        lemma_timed_ascends(samples.drop_last());
        lemma_put_ascends(timed(samples.drop_last()), samples.last());
    }
}

proof fn lemma_within_concat(a: Seq<SampleView>, b: Seq<SampleView>, from: u64, end: u64)
    ensures
        within(a + b, from, end) == within(a, from, end) + within(b, from, end),
    decreases b.len(),
{
    if b.len() == 0 {
        assert(a + b =~= a);
        assert(within(a, from, end) + within(b, from, end) =~= within(a, from, end));
    } else {
        let front = b.drop_last();
        lemma_within_concat(a, front, from, end);
        assert((a + b).drop_last() =~= a + front);
        assert((a + b).last() == b.last());
        let (x, y) = (within(a, from, end), within(front, from, end));
        assert((x + y).push(b.last()) =~= x + y.push(b.last()));
    }
}

/// One sample is within a range or it is not.
proof fn lemma_within_one(sample: SampleView, from: u64, end: u64)
    ensures
        within(seq![sample], from, end) == (if from <= sample.timestamp_nanos <= end {
            seq![sample]
        } else {
            Seq::empty()
        }),
{
    let one = seq![sample];
    assert(one.last() == sample);
    assert(one.drop_last() =~= Seq::<SampleView>::empty());
    assert(within(one.drop_last(), from, end) =~= Seq::<SampleView>::empty());
    assert(Seq::<SampleView>::empty().push(sample) =~= one);
}

/// Putting a sample in its place and taking a range go together.
proof fn lemma_put_within(list: Seq<SampleView>, sample: SampleView, from: u64, end: u64)
    requires
        ascends(list),
    ensures
        within(put_sample(list, sample), from, end) == (if from <= sample.timestamp_nanos <= end {
            put_sample(within(list, from, end), sample)
        } else {
            within(list, from, end)
        }),
    decreases list.len(),
{
    let kept = within(list, from, end);
    let own = within(seq![sample], from, end);
    lemma_within_one(sample, from, end);
    if list.len() == 0 {
    } else if sample.timestamp_nanos < list[0].timestamp_nanos {
        lemma_within_concat(seq![sample], list, from, end);
        if from <= sample.timestamp_nanos <= end {
            lemma_all_later(list, sample, from, end);
        } else {
            assert(own + kept =~= kept);
        }
    } else {
        let first = seq![list[0]];
        let rest = list.drop_first();
        assert(list =~= first + rest);
        assert forall|i: int, j: int| 0 <= i < j < rest.len() implies (
        #[trigger] rest[i]).timestamp_nanos <= (#[trigger] rest[j]).timestamp_nanos by {
            assert(rest[i] == list[i + 1] && rest[j] == list[j + 1]);
        }
        lemma_put_within(rest, sample, from, end);
        lemma_within_concat(first, rest, from, end);
        lemma_within_concat(first, put_sample(rest, sample), from, end);
        lemma_within_one(list[0], from, end);
        let left = within(rest, from, end);
        if from <= list[0].timestamp_nanos <= end {
            assert(kept == first + left);
            assert(kept[0] == list[0]);
            assert(kept.drop_first() =~= left);
        } else {
            assert(kept =~= left);
            let more = within(put_sample(rest, sample), from, end);
            assert(Seq::<SampleView>::empty() + more =~= more);
        }
    }
}

/// A sample before all of a list is put in front of what a range leaves of it.
proof fn lemma_all_later(list: Seq<SampleView>, sample: SampleView, from: u64, end: u64)
    requires
        ascends(list),
        list.len() > 0,
        sample.timestamp_nanos < list[0].timestamp_nanos,
    ensures
        put_sample(within(list, from, end), sample) == seq![sample] + within(list, from, end),
{
    let kept = within(list, from, end);
    if kept.len() == 0 {
        assert(seq![sample] + kept =~= seq![sample]);
    } else {
        lemma_within_is_part(list, from, end);
        let k = choose|k: int| 0 <= k < list.len() && list[k] == kept[0];
        if k > 0 {
            assert(list[0].timestamp_nanos <= list[k].timestamp_nanos);
        }
    }
}

proof fn lemma_within_is_part(list: Seq<SampleView>, from: u64, end: u64)
    ensures
        forall|i: int|
            0 <= i < within(list, from, end).len() ==> list.contains(
                #[trigger] within(list, from, end)[i],
            ),
    decreases list.len(),
{
    if list.len() > 0 {
        let front = list.drop_last();
        lemma_within_is_part(front, from, end);
        let kept = within(list, from, end);
        let before = within(front, from, end);
        assert forall|i: int| 0 <= i < kept.len() implies list.contains(#[trigger] kept[i]) by {
            if i < before.len() {
                assert(kept[i] == before[i]);
                let k = choose|k: int| 0 <= k < front.len() && front[k] == before[i];
                assert(list[k] == kept[i]);
            } else {
                assert(list[list.len() - 1] == kept[i]);
            }
        }
    }
}

/// Ordering by time and taking a range go together.
proof fn lemma_timed_within(samples: Seq<SampleView>, from: u64, end: u64)
    ensures
        within(timed(samples), from, end) == timed(within(samples, from, end)),
    decreases samples.len(),
{
    if samples.len() > 0 {
        let front = samples.drop_last();
        lemma_timed_within(front, from, end);
        lemma_timed_ascends(front);
        lemma_put_within(timed(front), samples.last(), from, end);
        if from <= samples.last().timestamp_nanos <= end {
            let kept = within(front, from, end);
            assert(kept.push(samples.last()).drop_last() =~= kept);
        }
    }
}

proof fn lemma_points_within(samples: Seq<SampleView>, from: u64, end: u64)
    ensures
        samples_within(points_of(samples), from, end) == points_of(within(samples, from, end)),
    decreases samples.len(),
{
    let points = points_of(samples);
    if samples.len() == 0 {
        assert(points =~= points_of(within(samples, from, end)));
    } else {
        let front = samples.drop_last();
        lemma_points_within(front, from, end);
        assert(points.drop_last() =~= points_of(front));
        assert(points.last() == (samples.last().timestamp_nanos, samples.last().value));
        let kept = within(front, from, end);
        assert(points_of(kept.push(samples.last())) =~= points_of(kept).push(points.last()));
    }
}

proof fn lemma_put_len(list: Seq<SampleView>, sample: SampleView)
    ensures
        put_sample(list, sample).len() == list.len() + 1,
    decreases list.len(),
{
    if list.len() > 0 && sample.timestamp_nanos >= list[0].timestamp_nanos {
        lemma_put_len(list.drop_first(), sample);
    }
}

proof fn lemma_timed_len(samples: Seq<SampleView>)
    ensures
        timed(samples).len() == samples.len(),
    decreases samples.len(),
{
    if samples.len() > 0 {
        lemma_timed_len(samples.drop_last());
        lemma_put_len(timed(samples.drop_last()), samples.last());
    }
}

// ---------------------------------------------------------------------------
// Series
// ---------------------------------------------------------------------------

/// The series with some labels.
spec fn series_for(samples: Seq<SampleView>, labels: Seq<Pair>) -> SeriesView {
    SeriesView { labels, samples: points_of(timed(of_series(samples, labels))) }
}

spec fn in_label_order(series: Seq<SeriesView>) -> bool {
    forall|a: int, b: int|
        0 <= a < b < series.len() ==> labels_before(
            (#[trigger] series[a]).labels,
            (#[trigger] series[b]).labels,
        )
}

/// Samples make one series per label set, in the order of label sets, each of exactly its
/// own samples.
proof fn lemma_series_of(samples: Seq<SampleView>)
    ensures
        in_label_order(series_of(samples)),
        forall|j: int|
            0 <= j < series_of(samples).len() ==> (#[trigger] series_of(samples)[j]) == series_for(
                samples,
                series_of(samples)[j].labels,
            ) && of_series(samples, series_of(samples)[j].labels).len() > 0,
        forall|i: int|
            0 <= i < samples.len() ==> series_of(samples).contains(
                series_for(samples, (#[trigger] samples[i]).series),
            ),
{
    let keys = sample_streams(samples);
    let groups = grouped(keys, keys.len());
    let sorted = sorted_groups(keys);
    let out = series_of(samples);
    let own = heads(keys, groups);
    law_sorted_groups(keys);
    lemma_sorted_groups(keys);
    lemma_grouped(keys, keys.len());
    lemma_ordered_places(own.len(), |a: int, b: int| labels_before(own[a], own[b]));
    let list = by_labels(own);
    assert(samples.take(samples.len() as int) =~= samples);
    assert forall|j: int| 0 <= j < out.len() implies (#[trigger] out[j]) == series_for(
        samples,
        out[j].labels,
    ) && of_series(samples, out[j].labels).len() > 0 by {
        let group = sorted[j];
        assert(0 <= list[j] < groups.len());
        assert(group == groups[list[j]]);
        assert(group.len() > 0);
        lemma_group_is_series(samples, samples.len(), list[j]);
        let mine = chosen(samples, group);
        let less = |a: int, b: int| mine[a].timestamp_nanos < mine[b].timestamp_nanos;
        lemma_in_time_is_timed(mine, mine.len(), less);
        assert(mine.take(mine.len() as int) =~= mine);
        assert(in_time(mine) == ordered(mine.len(), less));
        assert(out[j] == one_series(samples, group));
    }
    assert forall|a: int, b: int| 0 <= a < b < out.len() implies labels_before(
        (#[trigger] out[a]).labels,
        (#[trigger] out[b]).labels,
    ) by {
        assert(sorted[a].len() > 0 && sorted[b].len() > 0);
        assert(0 <= sorted[a][0] < samples.len() && 0 <= sorted[b][0] < samples.len());
        assert(out[a].labels == keys[sorted[a][0]]);
        assert(out[b].labels == keys[sorted[b][0]]);
    }
    assert forall|i: int| 0 <= i < samples.len() implies out.contains(
        series_for(samples, (#[trigger] samples[i]).series),
    ) by {
        assert(keys[i] == samples[i].series);
        let g = choose|g: int|
            0 <= g < sorted.len() && keys[(#[trigger] sorted[g])[0]] == keys[i]
                && sorted[g].contains(i);
        assert(sorted[g].len() > 0);
        assert(0 <= sorted[g][0] < samples.len());
        assert(out[g].labels == keys[sorted[g][0]]);
        assert(out[g] == series_for(samples, out[g].labels));
    }
}

/// What a read leaves of series is in order, and is what is left of each of them.
proof fn lemma_narrowed(series: Seq<SeriesView>, matchers: Seq<MatcherView>, from: u64, end: u64)
    requires
        in_label_order(series),
    ensures
        in_label_order(narrowed(series, matchers, from, end)),
        forall|j: int|
            0 <= j < narrowed(series, matchers, from, end).len() ==> exists|i: int|
                0 <= i < series.len() && is_left(
                    #[trigger] series[i],
                    #[trigger] narrowed(series, matchers, from, end)[j],
                    matchers,
                    from,
                    end,
                ),
        forall|i: int|
            0 <= i < series.len() && all_match(matchers, (#[trigger] series[i]).labels)
                && samples_within(series[i].samples, from, end).len() > 0 ==> narrowed(
                series,
                matchers,
                from,
                end,
            ).contains(
                SeriesView {
                    labels: series[i].labels,
                    samples: samples_within(series[i].samples, from, end),
                },
            ),
    decreases series.len(),
{
    if series.len() > 0 {
        let front = series.drop_last();
        let last = series.last();
        let n = front.len() as int;
        assert(series[n] == last);
        assert forall|a: int, b: int| 0 <= a < b < front.len() implies labels_before(
            (#[trigger] front[a]).labels,
            (#[trigger] front[b]).labels,
        ) by {
            assert(front[a] == series[a] && front[b] == series[b]);
        }
        lemma_narrowed(front, matchers, from, end);
        let rest = narrowed(front, matchers, from, end);
        let all = narrowed(series, matchers, from, end);
        assert forall|j: int| 0 <= j < all.len() implies exists|i: int|
            0 <= i < series.len() && is_left(
                #[trigger] series[i],
                #[trigger] all[j],
                matchers,
                from,
                end,
            ) by {
            if j < rest.len() {
                assert(all[j] == rest[j]);
                let i = choose|i: int|
                    0 <= i < front.len() && is_left(
                        #[trigger] front[i],
                        rest[j],
                        matchers,
                        from,
                        end,
                    );
                assert(series[i] == front[i]);
                assert(is_left(series[i], all[j], matchers, from, end));
            } else {
                assert(is_left(series[n], all[j], matchers, from, end));
            }
        }
        assert forall|i: int|
            0 <= i < series.len() && all_match(matchers, (#[trigger] series[i]).labels)
                && samples_within(series[i].samples, from, end).len() > 0 implies all.contains(
            SeriesView {
                labels: series[i].labels,
                samples: samples_within(series[i].samples, from, end),
            },
        ) by {
            if i < n {
                assert(front[i] == series[i]);
                let one = SeriesView {
                    labels: front[i].labels,
                    samples: samples_within(front[i].samples, from, end),
                };
                assert(rest.contains(one));
                let k = choose|k: int| 0 <= k < rest.len() && rest[k] == one;
                assert(all[k] == one);
            } else {
                assert(all[rest.len() as int] == SeriesView {
                    labels: series[i].labels,
                    samples: samples_within(series[i].samples, from, end),
                });
            }
        }
        assert forall|a: int, b: int| 0 <= a < b < all.len() implies labels_before(
            (#[trigger] all[a]).labels,
            (#[trigger] all[b]).labels,
        ) by {
            assert(all[a] == rest[a]);
            if b < rest.len() {
                assert(all[b] == rest[b]);
            } else {
                let i = choose|i: int|
                    0 <= i < front.len() && is_left(
                        #[trigger] front[i],
                        rest[a],
                        matchers,
                        from,
                        end,
                    );
                assert(front[i] == series[i]);
                assert(labels_before(series[i].labels, series[n].labels));
            }
        }
    }
}

/// Whether `left` is what a read leaves of a series.
spec fn is_left(
    series: SeriesView,
    left: SeriesView,
    matchers: Seq<MatcherView>,
    from: u64,
    end: u64,
) -> bool {
    &&& all_match(matchers, series.labels)
    &&& left.labels == series.labels
    &&& left.samples == samples_within(series.samples, from, end)
    &&& left.samples.len() > 0
}

/// Series in order that are all among others, and those among them, are the same.
proof fn lemma_same_series(a: Seq<SeriesView>, b: Seq<SeriesView>)
    requires
        in_label_order(a),
        in_label_order(b),
        forall|i: int| 0 <= i < a.len() ==> b.contains(#[trigger] a[i]),
        forall|i: int| 0 <= i < b.len() ==> a.contains(#[trigger] b[i]),
    ensures
        a == b,
    decreases a.len(),
{
    if a.len() == 0 {
        if b.len() > 0 {
            assert(a.contains(b[0]));
        }
        assert(a =~= b);
    } else {
        assert(b.contains(a[0]));
        let (m, n) = (a.len() - 1, b.len() - 1);
        assert(b.contains(a[m]) && a.contains(b[n]));
        let i = choose|i: int| 0 <= i < b.len() && b[i] == a[m];
        let j = choose|j: int| 0 <= j < a.len() && a[j] == b[n];
        if i < n {
            assert(labels_before(b[i].labels, b[n].labels));
            law_labels_order_total(a[m].labels, b[n].labels);
            if j < m {
                assert(labels_before(a[j].labels, a[m].labels));
            }
        }
        assert(a[m] == b[n]);
        let (x, y) = (a.drop_last(), b.drop_last());
        assert forall|k: int| 0 <= k < x.len() implies y.contains(#[trigger] x[k]) by {
            assert(x[k] == a[k]);
            let at = choose|at: int| 0 <= at < b.len() && b[at] == a[k];
            if at == n {
                assert(labels_before(a[k].labels, a[m].labels));
                law_labels_order_total(a[k].labels, a[m].labels);
            }
            assert(y[at] == x[k]);
        }
        assert forall|k: int| 0 <= k < y.len() implies x.contains(#[trigger] y[k]) by {
            assert(y[k] == b[k]);
            let at = choose|at: int| 0 <= at < a.len() && a[at] == b[k];
            if at == m {
                assert(labels_before(b[k].labels, b[n].labels));
                law_labels_order_total(b[k].labels, b[n].labels);
            }
            assert(x[at] == y[k]);
        }
        assert forall|p: int, q: int| 0 <= p < q < x.len() implies labels_before(
            (#[trigger] x[p]).labels,
            (#[trigger] x[q]).labels,
        ) by {
            assert(x[p] == a[p] && x[q] == a[q]);
        }
        assert forall|p: int, q: int| 0 <= p < q < y.len() implies labels_before(
            (#[trigger] y[p]).labels,
            (#[trigger] y[q]).labels,
        ) by {
            assert(y[p] == b[p] && y[q] == b[q]);
        }
        lemma_same_series(x, y);
        assert(a =~= x.push(a[m]));
        assert(b =~= y.push(b[n]));
    }
}

/// What is left of an accepted series is the series of what is read.
proof fn lemma_left_is_read(
    samples: Seq<SampleView>,
    matchers: Seq<MatcherView>,
    from: u64,
    end: u64,
    labels: Seq<Pair>,
)
    requires
        all_match(matchers, labels),
    ensures
        series_for(read_of(samples, matchers, from, end), labels).samples == samples_within(
            series_for(samples, labels).samples,
            from,
            end,
        ),
        series_for(read_of(samples, matchers, from, end), labels).samples.len() == of_series(
            read_of(samples, matchers, from, end),
            labels,
        ).len(),
{
    let own = of_series(samples, labels);
    lemma_read_of_series(samples, matchers, from, end, labels);
    lemma_timed_within(own, from, end);
    lemma_points_within(timed(own), from, end);
    lemma_timed_len(of_series(read_of(samples, matchers, from, end), labels));
}

proof fn lemma_read_is_part(
    samples: Seq<SampleView>,
    matchers: Seq<MatcherView>,
    from: u64,
    end: u64,
)
    ensures
        forall|i: int|
            0 <= i < read_of(samples, matchers, from, end).len() ==> samples.contains(
                #[trigger] read_of(samples, matchers, from, end)[i],
            ) && all_match(matchers, read_of(samples, matchers, from, end)[i].series),
    decreases samples.len(),
{
    if samples.len() > 0 {
        let front = samples.drop_last();
        lemma_read_is_part(front, matchers, from, end);
        let rest = read_of(front, matchers, from, end);
        let all = read_of(samples, matchers, from, end);
        assert forall|i: int| 0 <= i < all.len() implies samples.contains(#[trigger] all[i])
            && all_match(matchers, all[i].series) by {
            if i < rest.len() {
                assert(all[i] == rest[i]);
                let k = choose|k: int| 0 <= k < front.len() && front[k] == rest[i];
                assert(samples[k] == all[i]);
            } else {
                assert(samples[samples.len() - 1] == all[i]);
            }
        }
    }
}

// ---------------------------------------------------------------------------
// Laws
// ---------------------------------------------------------------------------

/// The series of what is read are what the read leaves of the series.
pub proof fn law_a_read_narrows_the_series(
    samples: Seq<SampleView>,
    matchers: Seq<MatcherView>,
    from: u64,
    end: u64,
)
    ensures
        series_of(read_of(samples, matchers, from, end)) == narrowed(
            series_of(samples),
            matchers,
            from,
            end,
        ),
{
    let read = read_of(samples, matchers, from, end);
    let all = series_of(samples);
    let few = series_of(read);
    let left = narrowed(all, matchers, from, end);
    lemma_series_of(samples);
    lemma_series_of(read);
    lemma_narrowed(all, matchers, from, end);
    lemma_read_is_part(samples, matchers, from, end);
    assert forall|j: int| 0 <= j < few.len() implies left.contains(#[trigger] few[j]) by {
        let labels = few[j].labels;
        lemma_of_series(read, labels);
        let i = choose|i: int| 0 <= i < read.len() && (#[trigger] read[i]).series == labels;
        assert(samples.contains(read[i]) && all_match(matchers, read[i].series));
        let k = choose|k: int| 0 <= k < samples.len() && samples[k] == read[i];
        assert(all.contains(series_for(samples, samples[k].series)));
        let g = choose|g: int| 0 <= g < all.len() && all[g] == series_for(samples, labels);
        lemma_left_is_read(samples, matchers, from, end, labels);
        assert(all[g].labels == labels);
        assert(few[j] == series_for(read, labels));
        assert(few[j] == SeriesView {
            labels: all[g].labels,
            samples: samples_within(all[g].samples, from, end),
        });
    }
    assert forall|j: int| 0 <= j < left.len() implies few.contains(#[trigger] left[j]) by {
        let g = choose|g: int|
            0 <= g < all.len() && is_left(#[trigger] all[g], left[j], matchers, from, end);
        let labels = all[g].labels;
        assert(all[g] == series_for(samples, labels));
        lemma_left_is_read(samples, matchers, from, end, labels);
        lemma_of_series(read, labels);
        let i = choose|i: int| 0 <= i < read.len() && (#[trigger] read[i]).series == labels;
        assert(few.contains(series_for(read, read[i].series)));
        assert(left[j] == series_for(read, labels));
    }
    lemma_same_series(few, left);
}

/// Loading what the plan of an expression reads is enough: at every step of the query it
/// evaluates to what it evaluates to on every sample there is.
pub proof fn law_what_is_loaded_is_enough(
    samples: Seq<SampleView>,
    e: ExprView,
    start: u64,
    end: u64,
    at: u64,
    calc: Calc,
    literals: Literals,
)
    requires
        start <= at <= end,
        arities_match(e),
        looks_within(e, widest_reach(selectors_of(e))),
    ensures
        evaluated(
            series_of(
                read_of(
                    samples,
                    pushdown(selectors_of(e)),
                    minus(start, saturated(widest_reach(selectors_of(e)))),
                    end,
                ),
            ),
            e,
            at,
            calc,
            literals,
        ) == evaluated(series_of(samples), e, at, calc, literals),
{
    law_a_read_narrows_the_series(
        samples,
        pushdown(selectors_of(e)),
        minus(start, saturated(widest_reach(selectors_of(e)))),
        end,
    );
    law_the_planned_read_is_enough(series_of(samples), e, start, end, at, calc, literals);
}

} // verus!
