//! What PromQL evaluation means, in terms of the samples that go in.
use vstd::prelude::*;

use crate::double::{
    at_most, double_bits, is_infinite, is_nan, larger, law_numbers_are_ordered, less, negated,
    smaller, INFINITY, NEGATIVE_INFINITY,
};
use crate::grouping::{
    chosen, law_a_sorted_group_is_all_of_its_labels, law_sorted_groups, lemma_chosen_with,
    lemma_sorted_groups, places_with, sorted_groups,
};
use crate::labels::{kept, law_kept_labels, lemma_lookup_is_a_pair, lookup, sorted, Pair};
use crate::matcher::all_match;
use crate::promeval::{
    aggregated, combined, evaluated, greatest, growth, instant_of, key_of, keys_of, latest, least,
    lemma_projected, matching_places, measured, nameless, quantile_of, rate_of, rates_of, reached,
    reduced, values_of, window, Calc, Evaluated, Literals, Outcome, Sampled, SeriesView,
};
use crate::promql::{AggregateOp, BinaryOp, ExprView, Function, GroupingView, SelectorView};

verus! {

// ---------------------------------------------------------------------------
// Selectors
// ---------------------------------------------------------------------------

/// A window holds exactly the samples after its start and up to its end, in order.
pub proof fn law_a_window_is_what_lies_in_it(samples: Seq<(u64, u64)>, floor: u64, at: u64)
    ensures
        window(samples, floor, at) == samples.filter(|sample: (u64, u64)| floor < sample.0 <= at),
    decreases samples.len(),
{
    reveal(Seq::filter);
    if samples.len() > 0 {
        law_a_window_is_what_lies_in_it(samples.drop_last(), floor, at);
    }
}

/// The value of a series at a time is that of its last sample after the floor and up to the
/// time; it has none where no sample lies there.
pub proof fn law_the_latest_sample_counts(samples: Seq<(u64, u64)>, floor: u64, at: u64)
    ensures
        match latest(samples, floor, at) {
            Some(value) => exists|i: int|
                0 <= i < samples.len() && (#[trigger] samples[i]).1 == value && floor < samples[i].0
                    <= at && forall|k: int|
                    i < k < samples.len() ==> !(floor < (#[trigger] samples[k]).0 <= at),
            None => forall|k: int|
                0 <= k < samples.len() ==> !(floor < (#[trigger] samples[k]).0 <= at),
        },
    decreases samples.len(),
{
    if samples.len() > 0 {
        let front = samples.drop_last();
        let n = samples.len() - 1;
        if floor < samples[n].0 <= at {
            assert(samples[n].1 == samples.last().1);
        } else {
            law_the_latest_sample_counts(front, floor, at);
            match latest(front, floor, at) {
                Some(value) => {
                    let i = choose|i: int|
                        0 <= i < front.len() && (#[trigger] front[i]).1 == value && floor
                            < front[i].0 <= at && forall|k: int|
                            i < k < front.len() ==> !(floor < (#[trigger] front[k]).0 <= at);
                    assert(samples[i] == front[i]);
                    assert forall|k: int| i < k < samples.len() implies !(floor < (
                    #[trigger] samples[k]).0 <= at) by {
                        if k < front.len() {
                            assert(samples[k] == front[k]);
                        }
                    }
                },
                None => {
                    assert forall|k: int| 0 <= k < samples.len() implies !(floor < (
                    #[trigger] samples[k]).0 <= at) by {
                        if k < front.len() {
                            assert(samples[k] == front[k]);
                        }
                    }
                },
            }
        }
    }
}

/// What is measured of series: one sample for each that every matcher accepts and that has a
/// value, under its labels without its name.
pub proof fn law_matching_series_are_measured(
    series: Seq<SeriesView>,
    selector: SelectorView,
    value: spec_fn(Seq<(u64, u64)>) -> Option<u64>,
    p: int,
)
    requires
        0 <= p < series.len(),
        all_match(selector.matchers, series[p].labels),
        value(series[p].samples) is Some,
    ensures
        measured(series, matching_places(series, selector.matchers, series.len()), value).contains(
            (nameless(series[p].labels), value(series[p].samples)->Some_0),
        ),
{
    let places = matching_places(series, selector.matchers, series.len());
    let at = lemma_matching_place(series, selector, series.len(), p);
    lemma_measured_holds(series, places, value, at);
}

proof fn lemma_matching_place(
    series: Seq<SeriesView>,
    selector: SelectorView,
    n: nat,
    p: int,
) -> (at: int)
    requires
        0 <= p < n <= series.len(),
        all_match(selector.matchers, series[p].labels),
    ensures
        0 <= at < matching_places(series, selector.matchers, n).len(),
        matching_places(series, selector.matchers, n)[at] == p,
    decreases n,
{
    if p == n - 1 {
        matching_places(series, selector.matchers, n).len() - 1
    } else {
        lemma_matching_place(series, selector, (n - 1) as nat, p)
    }
}

proof fn lemma_measured_holds(
    series: Seq<SeriesView>,
    places: Seq<int>,
    value: spec_fn(Seq<(u64, u64)>) -> Option<u64>,
    at: int,
)
    requires
        0 <= at < places.len(),
        value(series[places[at]].samples) is Some,
    ensures
        measured(series, places, value).contains(
            (
                nameless(series[places[at]].labels),
                value(series[places[at]].samples)->Some_0,
            ),
        ),
    decreases places.len(),
{
    let front = places.drop_last();
    let all = measured(series, places, value);
    let sample = (
        nameless(series[places[at]].labels),
        value(series[places[at]].samples)->Some_0,
    );
    if at < front.len() {
        assert(front[at] == places[at]);
        lemma_measured_holds(series, front, value, at);
        let rest = measured(series, front, value);
        let k = choose|k: int| 0 <= k < rest.len() && rest[k] == sample;
        assert(all[k] == sample);
    } else {
        assert(all[all.len() - 1] == sample);
    }
}

/// Whether a measured sample comes from the series at `p`.
pub open spec fn is_measured_of(
    series: Seq<SeriesView>,
    selector: SelectorView,
    value: spec_fn(Seq<(u64, u64)>) -> Option<u64>,
    sample: Sampled,
    p: int,
) -> bool {
    &&& 0 <= p < series.len()
    &&& all_match(selector.matchers, series[p].labels)
    &&& sample.0 == nameless(series[p].labels)
    &&& value(series[p].samples) == Some(sample.1)
}

/// And nothing else is measured.
pub proof fn law_only_matching_series_are_measured(
    series: Seq<SeriesView>,
    selector: SelectorView,
    value: spec_fn(Seq<(u64, u64)>) -> Option<u64>,
    i: int,
) -> (p: int)
    requires
        0 <= i < measured(
            series,
            matching_places(series, selector.matchers, series.len()),
            value,
        ).len(),
    ensures
        is_measured_of(
            series,
            selector,
            value,
            measured(series, matching_places(series, selector.matchers, series.len()), value)[i],
            p,
        ),
{
    let places = matching_places(series, selector.matchers, series.len());
    lemma_matching_places(series, selector, series.len());
    lemma_measured_comes_from(series, selector, places, value, i)
}

proof fn lemma_matching_places(series: Seq<SeriesView>, selector: SelectorView, n: nat)
    requires
        n <= series.len(),
    ensures
        forall|k: int|
            0 <= k < matching_places(series, selector.matchers, n).len() ==> 0
                <= #[trigger] matching_places(series, selector.matchers, n)[k] < series.len()
                && all_match(
                selector.matchers,
                series[matching_places(series, selector.matchers, n)[k]].labels,
            ),
    decreases n,
{
    if n > 0 {
        lemma_matching_places(series, selector, (n - 1) as nat);
        let rest = matching_places(series, selector.matchers, (n - 1) as nat);
        let all = matching_places(series, selector.matchers, n);
        assert forall|k: int| 0 <= k < all.len() implies 0 <= #[trigger] all[k] < series.len()
            && all_match(selector.matchers, series[all[k]].labels) by {
            if k < rest.len() {
                assert(all[k] == rest[k]);
            }
        }
    }
}

proof fn lemma_measured_comes_from(
    series: Seq<SeriesView>,
    selector: SelectorView,
    places: Seq<int>,
    value: spec_fn(Seq<(u64, u64)>) -> Option<u64>,
    i: int,
) -> (p: int)
    requires
        0 <= i < measured(series, places, value).len(),
        forall|k: int|
            0 <= k < places.len() ==> 0 <= #[trigger] places[k] < series.len() && all_match(
                selector.matchers,
                series[places[k]].labels,
            ),
    ensures
        is_measured_of(series, selector, value, measured(series, places, value)[i], p),
    decreases places.len(),
{
    let front = places.drop_last();
    let rest = measured(series, front, value);
    if i < rest.len() {
        assert forall|k: int| 0 <= k < front.len() implies 0 <= #[trigger] front[k] < series.len()
            && all_match(selector.matchers, series[front[k]].labels) by {
            assert(front[k] == places[k]);
        }
        lemma_measured_comes_from(series, selector, front, value, i)
    } else {
        assert(places[places.len() - 1] == places.last());
        places.last()
    }
}

/// An instant selector measures the latest sample of the last five minutes, `offset` before
/// the time it is asked for; a rate the samples of its range up to then. Neither reaches
/// before the start of time.
pub proof fn law_selectors_look_back(
    series: Seq<SeriesView>,
    selector: SelectorView,
    range: u64,
    at: u64,
    per_second: bool,
    calc: Calc,
)
    ensures
        ({
            let places = matching_places(series, selector.matchers, series.len());
            let back = match selector.offset {
                Some(offset) => offset as int,
                None => 0,
            };
            let moment: u64 = if at >= back {
                (at - back) as u64
            } else {
                0
            };
            let five: u64 = if moment >= 300_000_000_000 {
                (moment - 300_000_000_000) as u64
            } else {
                0
            };
            let start: u64 = if moment >= range {
                (moment - range) as u64
            } else {
                0
            };
            &&& instant_of(series, selector, at) == measured(
                series,
                places,
                |samples: Seq<(u64, u64)>| latest(samples, five, moment),
            )
            &&& rates_of(series, selector, range, at, per_second, calc) == measured(
                series,
                places,
                |samples: Seq<(u64, u64)>|
                    rate_of(samples, start, moment, range, per_second, calc),
            )
        }),
{
}

// ---------------------------------------------------------------------------
// Rates
// ---------------------------------------------------------------------------

/// Whether doubles stand for numbers that `calc` adds and subtracts exactly.
pub open spec fn is_exact(calc: Calc, number: spec_fn(u64) -> int) -> bool {
    &&& number(0) == 0
    &&& forall|a: u64, b: u64| #[trigger]
        number(calc(BinaryOp::Add, a, b)) == number(a) + number(b)
    &&& forall|a: u64, b: u64| #[trigger]
        number(calc(BinaryOp::Sub, a, b)) == number(a) - number(b)
}

/// Whether samples are in the order of the numbers that they stand for.
pub open spec fn are_numbers(samples: Seq<(u64, u64)>, number: spec_fn(u64) -> int) -> bool {
    forall|i: int, j: int|
        0 <= i < samples.len() && 0 <= j < samples.len() ==> less(
            (#[trigger] samples[i]).1,
            (#[trigger] samples[j]).1,
        ) == (number(samples[i].1) < number(samples[j].1))
}

/// A counter that never drops grew by what its last sample is above its first.
pub proof fn law_a_counter_grows_to_its_last(
    samples: Seq<(u64, u64)>,
    calc: Calc,
    number: spec_fn(u64) -> int,
)
    requires
        is_exact(calc, number),
        are_numbers(samples, number),
        samples.len() > 0,
        forall|i: int, j: int|
            0 <= i < j < samples.len() ==> number((#[trigger] samples[i]).1) <= number(
                (#[trigger] samples[j]).1,
            ),
    ensures
        number(growth(samples, calc)) == number(samples.last().1) - number(samples[0].1),
    decreases samples.len(),
{
    if samples.len() > 1 {
        let front = samples.drop_last();
        assert forall|i: int, j: int|
            0 <= i < front.len() && 0 <= j < front.len() implies less(
            (#[trigger] front[i]).1,
            (#[trigger] front[j]).1,
        ) == (number(front[i].1) < number(front[j].1)) by {
            assert(front[i] == samples[i] && front[j] == samples[j]);
        }
        assert forall|i: int, j: int| 0 <= i < j < front.len() implies number(
            (#[trigger] front[i]).1,
        ) <= number((#[trigger] front[j]).1) by {
            assert(front[i] == samples[i] && front[j] == samples[j]);
        }
        law_a_counter_grows_to_its_last(front, calc, number);
        let n = samples.len();
        assert(samples[n - 2] == front.last() && samples[n - 1] == samples.last());
        assert(number(samples[n - 2].1) <= number(samples[n - 1].1));
        assert(less(samples[n - 1].1, samples[n - 2].1) == (number(samples[n - 1].1) < number(
            samples[n - 2].1,
        )));
    }
}

/// Where a counter drops it was started again from zero: what follows counts whole, on top of
/// what it grew before. Where it does not, it only went on.
pub proof fn law_a_reset_counts_from_zero(
    before: Seq<(u64, u64)>,
    after: Seq<(u64, u64)>,
    calc: Calc,
    number: spec_fn(u64) -> int,
)
    requires
        is_exact(calc, number),
        are_numbers(before + after, number),
        before.len() > 0,
        after.len() > 0,
    ensures
        number(growth(before + after, calc)) == number(growth(before, calc)) + number(
            growth(after, calc),
        ) + (if number(after[0].1) < number(before.last().1) {
            number(after[0].1)
        } else {
            number(after[0].1) - number(before.last().1)
        }),
    decreases after.len(),
{
    let all = before + after;
    let n = all.len();
    let front = after.drop_last();
    assert(all.drop_last() =~= before + front);
    assert(all[n - 1] == after.last());
    assert(less(all[n - 1].1, all[n - 2].1) == (number(all[n - 1].1) < number(all[n - 2].1)));
    if after.len() == 1 {
        assert(before + front =~= before);
        assert(all[n - 2] == before.last());
    } else {
        let less_all = before + front;
        assert forall|i: int, j: int|
            0 <= i < less_all.len() && 0 <= j < less_all.len() implies less(
            (#[trigger] less_all[i]).1,
            (#[trigger] less_all[j]).1,
        ) == (number(less_all[i].1) < number(less_all[j].1)) by {
            assert(less_all[i] == all[i] && less_all[j] == all[j]);
        }
        law_a_reset_counts_from_zero(before, front, calc, number);
        assert(all[n - 2] == after[after.len() - 2]);
        assert(front[0] == after[0]);
    }
}

/// A rate is what a counter grew over the seconds between the first and the last sample of its
/// window, and an increase that rate times the seconds of the range. Fewer than two samples,
/// or samples of one time, give neither.
pub proof fn law_a_rate_is_growth_over_time(
    samples: Seq<(u64, u64)>,
    floor: u64,
    at: u64,
    range: u64,
    calc: Calc,
)
    ensures
        ({
            let seen = samples.filter(|sample: (u64, u64)| floor < sample.0 <= at);
            let seconds = |nanos: u64|
                calc(BinaryOp::Div, double_bits(nanos as nat), double_bits(1_000_000_000));
            let rate = rate_of(samples, floor, at, range, true, calc);
            let increase = rate_of(samples, floor, at, range, false, calc);
            if seen.len() < 2 || seen.last().0 <= seen[0].0 {
                rate is None && increase is None
            } else {
                &&& rate == Some(
                    calc(
                        BinaryOp::Div,
                        growth(seen, calc),
                        seconds((seen.last().0 - seen[0].0) as u64),
                    ),
                )
                &&& increase == Some(calc(BinaryOp::Mul, rate->Some_0, seconds(range)))
            }
        }),
{
    law_a_window_is_what_lies_in_it(samples, floor, at);
}

// ---------------------------------------------------------------------------
// Aggregations
// ---------------------------------------------------------------------------

/// `by` keeps the labels that it names and no other, `without` those that it does not name,
/// and neither word keeps none.
pub proof fn law_a_group_has_the_labels_it_asks_for(
    labels: Seq<Pair>,
    names: Seq<Seq<char>>,
    name: Seq<char>,
)
    requires
        sorted(labels),
    ensures
        lookup(key_of(labels, GroupingView::By(names)), name) == (if names.contains(name) {
            lookup(labels, name)
        } else {
            None
        }),
        lookup(key_of(labels, GroupingView::Without(names)), name) == (if names.contains(name) {
            None
        } else {
            lookup(labels, name)
        }),
        key_of(labels, GroupingView::All).len() == 0,
{
    lemma_projected(labels, names);
    let rest = kept(labels, names);
    law_kept_labels(labels, names);
    if let Some(value) = lookup(labels, name) {
        lemma_lookup_is_a_pair(labels, name, value);
        lemma_lookup_is_a_pair(rest, name, value);
        let i = choose|i: int| 0 <= i < labels.len() && labels[i] == (name, value);
        if !names.contains(name) {
            assert(rest.contains(labels[i]));
        }
    }
    if let Some(value) = lookup(rest, name) {
        lemma_lookup_is_a_pair(rest, name, value);
        lemma_lookup_is_a_pair(labels, name, value);
        let i = choose|i: int| 0 <= i < rest.len() && rest[i] == (name, value);
        assert(labels.contains(rest[i]) && !names.contains(rest[i].0));
    }
}

/// A group's value is made of all the samples that fall into it and of no other, in order.
pub proof fn law_a_group_is_reduced_whole(
    op: AggregateOp,
    grouping: GroupingView,
    vector: Seq<Sampled>,
    calc: Calc,
)
    ensures
        forall|g: int|
            0 <= g < aggregated(op, grouping, vector, calc).len() ==> (#[trigger] aggregated(
                op,
                grouping,
                vector,
                calc,
            )[g]).1 == reduced(
                op,
                of_group(vector, grouping, aggregated(op, grouping, vector, calc)[g].0),
                calc,
            ),
{
    let keys = keys_of(vector, grouping);
    let groups = sorted_groups(keys);
    let out = aggregated(op, grouping, vector, calc);
    law_a_sorted_group_is_all_of_its_labels(keys);
    lemma_sorted_groups(keys);
    assert forall|g: int| 0 <= g < out.len() implies (#[trigger] out[g]).1 == reduced(
        op,
        of_group(vector, grouping, out[g].0),
        calc,
    ) by {
        let key = keys[groups[g][0]];
        assert(out[g] == (key, reduced(op, values_of(vector, groups[g]), calc)));
        let has = |sample: Sampled| key_of(sample.0, grouping) == key;
        lemma_chosen_with(vector, keys, key, has);
        assert(groups[g] == places_with(keys, key, vector.len()));
        let own = chosen(vector, groups[g]);
        assert(values_of(vector, groups[g]) =~= own.map_values(|sample: Sampled| sample.1));
        assert(own == vector.filter(has));
        assert(of_group(vector, grouping, key) =~= own.map_values(|sample: Sampled| sample.1));
    }
}

/// The values of the samples of a group.
pub open spec fn of_group(
    vector: Seq<Sampled>,
    grouping: GroupingView,
    key: Seq<Pair>,
) -> Seq<u64> {
    vector.filter(|sample: Sampled| key_of(sample.0, grouping) == key).map_values(
        |sample: Sampled| sample.1,
    )
}

/// A sum takes its values one after the other, and two parts of it add up to the whole. An
/// average is the sum over the count, and a count says how many there are.
pub proof fn law_sums_add_up(
    values: Seq<u64>,
    more: Seq<u64>,
    value: u64,
    calc: Calc,
    number: spec_fn(u64) -> int,
)
    requires
        is_exact(calc, number),
        number(0x8000_0000_0000_0000) == 0,
    ensures
        reduced(AggregateOp::Sum, values.push(value), calc) == calc(
            BinaryOp::Add,
            reduced(AggregateOp::Sum, values, calc),
            value,
        ),
        number(reduced(AggregateOp::Sum, values + more, calc)) == number(
            reduced(AggregateOp::Sum, values, calc),
        ) + number(reduced(AggregateOp::Sum, more, calc)),
        reduced(AggregateOp::Count, values, calc) == double_bits(values.len()),
        reduced(AggregateOp::Avg, values, calc) == calc(
            BinaryOp::Div,
            reduced(AggregateOp::Sum, values, calc),
            double_bits(values.len()),
        ),
    decreases more.len(),
{
    assert(values.push(value).drop_last() =~= values);
    if more.len() > 0 {
        let front = more.drop_last();
        law_sums_add_up(values, front, value, calc, number);
        assert((values + more).drop_last() =~= values + front);
        assert((values + more).last() == more.last());
    } else {
        assert(values + more =~= values);
    }
}

/// The least of some numbers is one of them, and none of them is less; the greatest likewise.
pub proof fn law_the_extremes_are_extreme(values: Seq<u64>, calc: Calc)
    requires
        values.len() > 0,
        forall|i: int| 0 <= i < values.len() ==> !is_nan(#[trigger] values[i]),
    ensures
        values.contains(reduced(AggregateOp::Min, values, calc)),
        values.contains(reduced(AggregateOp::Max, values, calc)),
        forall|i: int|
            0 <= i < values.len() ==> !less(
                #[trigger] values[i],
                reduced(AggregateOp::Min, values, calc),
            ) && !less(reduced(AggregateOp::Max, values, calc), values[i]),
    decreases values.len(),
{
    let front = values.drop_last();
    let last = values.last();
    let n = values.len() - 1;
    assert(values[n] == last);
    assert forall|i: int| 0 <= i < front.len() implies !is_nan(#[trigger] front[i]) by {
        assert(front[i] == values[i]);
    }
    if front.len() > 0 {
        law_the_extremes_are_extreme(front, calc);
        let (low, high) = (least(front), greatest(front));
        let a = choose|a: int| 0 <= a < front.len() && front[a] == low;
        let b = choose|b: int| 0 <= b < front.len() && front[b] == high;
        assert(values[a] == low && values[b] == high);
        assert(!is_nan(low) && !is_nan(high));
        let (least_now, most_now) = (least(values), greatest(values));
        assert(least_now == low || least_now == values[n]);
        assert(most_now == high || most_now == values[n]);
        assert forall|i: int| 0 <= i < values.len() implies !less(#[trigger] values[i], least_now)
            && !less(most_now, values[i]) by {
            if i < front.len() {
                assert(front[i] == values[i]);
                assert(!less(front[i], low) && !less(high, front[i]));
                law_numbers_are_ordered(values[i], low, last);
                law_numbers_are_ordered(values[i], high, last);
            }
        }
    } else {
        assert(front =~= Seq::<u64>::empty());
        lemma_within_infinities(last);
        assert(least(front) == INFINITY && greatest(front) == NEGATIVE_INFINITY);
        assert(least(values) == smaller(least(front), values.last()));
        assert(greatest(values) == larger(greatest(front), values.last()));
        assert(values.contains(last));
    }
}

/// Every number lies between the infinities.
proof fn lemma_within_infinities(value: u64)
    requires
        !is_nan(value),
    ensures
        smaller(INFINITY, value) == value,
        larger(NEGATIVE_INFINITY, value) == value,
{
}

// ---------------------------------------------------------------------------
// Quantiles
// ---------------------------------------------------------------------------

/// Where the wanted count is first reached.
pub open spec fn is_reached_at(buckets: Seq<(u64, u64)>, wanted: u64, i: int) -> bool {
    &&& 0 <= i < buckets.len()
    &&& at_most(wanted, buckets[i].1)
    &&& forall|k: int| 0 <= k < i ==> !at_most(wanted, (#[trigger] buckets[k]).1)
}

/// A quantile lies in the first bucket whose count reaches the wanted share of the whole count:
/// as far between the bound before and its own as the wanted count is between the counts. In
/// a bucket without an upper bound it is the bound before.
pub proof fn law_a_quantile_lies_in_its_bucket(
    quantile: u64,
    buckets: Seq<(u64, u64)>,
    i: int,
    calc: Calc,
)
    requires
        crate::promeval::by_bound(buckets).len() > 0,
        !at_most(crate::promeval::by_bound(buckets).last().1, 0),
        is_reached_at(
            crate::promeval::by_bound(buckets),
            calc(BinaryOp::Mul, quantile, crate::promeval::by_bound(buckets).last().1),
            i,
        ),
    ensures
        ({
            let all = crate::promeval::by_bound(buckets);
            let wanted = calc(BinaryOp::Mul, quantile, all.last().1);
            let (bound, count): (u64, u64) = if i == 0 {
                (0, 0)
            } else {
                all[i - 1]
            };
            let width = calc(BinaryOp::Sub, all[i].0, bound);
            let held = calc(BinaryOp::Sub, all[i].1, count);
            quantile_of(quantile, buckets, calc) == Some(
                if is_infinite(all[i].0) {
                    bound
                } else if less(0, held) {
                    calc(
                        BinaryOp::Add,
                        bound,
                        calc(
                            BinaryOp::Mul,
                            width,
                            calc(BinaryOp::Div, calc(BinaryOp::Sub, wanted, count), held),
                        ),
                    )
                } else {
                    calc(BinaryOp::Add, bound, calc(BinaryOp::Mul, width, 0))
                },
            )
        }),
{
    let all = crate::promeval::by_bound(buckets);
    let wanted = calc(BinaryOp::Mul, quantile, all.last().1);
    lemma_reached(all, 0, i, wanted, calc);
}

proof fn lemma_reached(buckets: Seq<(u64, u64)>, from: int, i: int, wanted: u64, calc: Calc)
    requires
        0 <= from <= i,
        is_reached_at(buckets, wanted, i),
    ensures
        ({
            let before = |k: int|
                if k <= 0 {
                    (0u64, 0u64)
                } else {
                    buckets[k - 1]
                };
            reached(buckets, from, wanted, before(from).0, before(from).1, calc) == reached(
                buckets,
                i,
                wanted,
                before(i).0,
                before(i).1,
                calc,
            )
        }),
    decreases i - from,
{
    if from < i {
        assert(!at_most(wanted, buckets[from].1));
        lemma_reached(buckets, from + 1, i, wanted, calc);
    }
}

// ---------------------------------------------------------------------------
// Expressions
// ---------------------------------------------------------------------------

/// An operator is applied to what its two sides evaluate to, the left one first, and a side
/// that cannot be evaluated is the answer.
pub proof fn law_an_operator_takes_both_sides(
    series: Seq<SeriesView>,
    op: BinaryOp,
    left: ExprView,
    right: ExprView,
    at: u64,
    calc: Calc,
    read: Literals,
)
    ensures
        ({
            let whole = evaluated(
                series,
                ExprView::Binary { op, left: Box::new(left), right: Box::new(right) },
                at,
                calc,
                read,
            );
            let (a, b) = (
                evaluated(series, left, at, calc, read),
                evaluated(series, right, at, calc, read),
            );
            &&& a is Err ==> whole == a
            &&& a is Ok && b is Err ==> whole == b
            &&& a is Ok && b is Ok ==> whole == Outcome::Ok(combined(op, a->Ok_0, b->Ok_0, calc))
        }),
{
}

/// Numbers evaluate to what they write, and an operator between two of them to what the
/// arithmetic gives for it.
pub proof fn law_numbers_evaluate(
    series: Seq<SeriesView>,
    op: BinaryOp,
    a: Seq<char>,
    b: Seq<char>,
    at: u64,
    calc: Calc,
    read: Literals,
)
    requires
        op != BinaryOp::Or,
    ensures
        evaluated(series, ExprView::Number(a), at, calc, read) == Outcome::Ok(
            Evaluated::Scalar(read(a)),
        ),
        evaluated(
            series,
            ExprView::Binary {
                op,
                left: Box::new(ExprView::Number(a)),
                right: Box::new(ExprView::Number(b)),
            },
            at,
            calc,
            read,
        ) == Outcome::Ok(Evaluated::Scalar(calc(op, read(a), read(b)))),
        evaluated(
            series,
            ExprView::Negate(Box::new(ExprView::Number(a))),
            at,
            calc,
            read,
        ) == Outcome::Ok(Evaluated::Scalar(negated(read(a)))),
{
    reveal_with_fuel(evaluated, 2);
}

/// A minus turns the sign of every value, and leaves the labels.
pub proof fn law_a_minus_turns_every_value(
    series: Seq<SeriesView>,
    inner: ExprView,
    at: u64,
    calc: Calc,
    read: Literals,
    vector: Seq<Sampled>,
)
    requires
        evaluated(series, inner, at, calc, read) == Outcome::Ok(Evaluated::Vector(vector)),
    ensures
        match evaluated(series, ExprView::Negate(Box::new(inner)), at, calc, read) {
            Ok(Evaluated::Vector(out)) => out.len() == vector.len() && forall|i: int|
                0 <= i < out.len() ==> #[trigger] out[i] == (vector[i].0, negated(vector[i].1)),
            _ => false,
        },
{
}

/// A clamp leaves no number past its bound, changes none that is not past it, and leaves the
/// labels.
pub proof fn law_a_clamp_holds_to_its_bound(
    series: Seq<SeriesView>,
    function: Function,
    inner: ExprView,
    bound: Seq<char>,
    at: u64,
    calc: Calc,
    read: Literals,
    vector: Seq<Sampled>,
)
    requires
        function == Function::ClampMin || function == Function::ClampMax,
        evaluated(series, inner, at, calc, read) == Outcome::Ok(Evaluated::Vector(vector)),
        !is_nan(read(bound)),
    ensures
        match evaluated(
            series,
            ExprView::Call { function, args: seq![inner, ExprView::Number(bound)] },
            at,
            calc,
            read,
        ) {
            Ok(Evaluated::Vector(out)) => out.len() == vector.len() && forall|i: int|
                0 <= i < out.len() ==> (#[trigger] out[i]).0 == vector[i].0 && (if function
                    == Function::ClampMin {
                    &&& !less(out[i].1, read(bound))
                    &&& out[i].1 == (if is_nan(vector[i].1) || less(vector[i].1, read(bound)) {
                        read(bound)
                    } else {
                        vector[i].1
                    })
                } else {
                    &&& !less(read(bound), out[i].1)
                    &&& out[i].1 == (if is_nan(vector[i].1) || less(read(bound), vector[i].1) {
                        read(bound)
                    } else {
                        vector[i].1
                    })
                }),
            _ => false,
        },
{
    let args = seq![inner, ExprView::Number(bound)];
    let call = ExprView::Call { function, args };
    assert(args[0] == inner && args[1] == ExprView::Number(bound));
    assert(evaluated(series, args[1], at, calc, read) == Outcome::Ok(
        Evaluated::Scalar(read(bound)),
    ));
}

/// An absolute value is never below zero, and is the value or its negation.
pub proof fn law_an_absolute_value_has_no_sign(
    series: Seq<SeriesView>,
    inner: ExprView,
    at: u64,
    calc: Calc,
    read: Literals,
    vector: Seq<Sampled>,
)
    requires
        evaluated(series, inner, at, calc, read) == Outcome::Ok(Evaluated::Vector(vector)),
    ensures
        match evaluated(
            series,
            ExprView::Call { function: Function::Abs, args: seq![inner] },
            at,
            calc,
            read,
        ) {
            Ok(Evaluated::Vector(out)) => out.len() == vector.len() && forall|i: int|
                0 <= i < out.len() ==> (#[trigger] out[i]).0 == vector[i].0 && !less(out[i].1, 0)
                    && (out[i].1 == vector[i].1 || out[i].1 == negated(vector[i].1)),
            _ => false,
        },
{
    let args = seq![inner];
    assert(args[0] == inner);
}

/// `rate` is per second and `increase` over the range, of the very selector that they are
/// given.
pub proof fn law_rates_are_evaluated(
    series: Seq<SeriesView>,
    selector: SelectorView,
    range: u64,
    at: u64,
    calc: Calc,
    read: Literals,
)
    requires
        selector.range == Some(range),
    ensures
        evaluated(
            series,
            ExprView::Call {
                function: Function::Rate,
                args: seq![ExprView::Selector(selector)],
            },
            at,
            calc,
            read,
        ) == Outcome::Ok(
            Evaluated::Vector(rates_of(series, selector, range, at, true, calc)),
        ),
        evaluated(
            series,
            ExprView::Call {
                function: Function::Increase,
                args: seq![ExprView::Selector(selector)],
            },
            at,
            calc,
            read,
        ) == Outcome::Ok(
            Evaluated::Vector(rates_of(series, selector, range, at, false, calc)),
        ),
{
    let args = seq![ExprView::Selector(selector)];
    assert(args[0] == ExprView::Selector(selector));
}

/// An aggregation takes what its operand evaluates to, by the grouping it is given; `topk` and
/// `bottomk` as many elements as their number says.
pub proof fn law_an_aggregation_takes_its_operand(
    series: Seq<SeriesView>,
    op: AggregateOp,
    grouping: GroupingView,
    inner: ExprView,
    k: Seq<char>,
    at: u64,
    calc: Calc,
    read: Literals,
    vector: Seq<Sampled>,
)
    requires
        evaluated(series, inner, at, calc, read) == Outcome::Ok(Evaluated::Vector(vector)),
    ensures
        op != AggregateOp::TopK && op != AggregateOp::BottomK ==> evaluated(
            series,
            ExprView::Aggregation { op, grouping, param: None, inner: Box::new(inner) },
            at,
            calc,
            read,
        ) == Outcome::Ok(Evaluated::Vector(aggregated(op, grouping, vector, calc))),
        op == AggregateOp::TopK || op == AggregateOp::BottomK ==> evaluated(
            series,
            ExprView::Aggregation {
                op,
                grouping,
                param: Some(Box::new(ExprView::Number(k))),
                inner: Box::new(inner),
            },
            at,
            calc,
            read,
        ) == Outcome::Ok(
            Evaluated::Vector(crate::promeval::elements(op, grouping, vector, read(k))),
        ),
{
    assert(evaluated(series, ExprView::Number(k), at, calc, read) == Outcome::Ok(
        Evaluated::Scalar(read(k)),
    ));
}

/// A quantile is asked for by its first argument, of the histograms in its second.
pub proof fn law_a_quantile_takes_its_arguments(
    series: Seq<SeriesView>,
    quantile: Seq<char>,
    inner: ExprView,
    at: u64,
    calc: Calc,
    read: Literals,
    vector: Seq<Sampled>,
)
    requires
        evaluated(series, inner, at, calc, read) == Outcome::Ok(Evaluated::Vector(vector)),
    ensures
        evaluated(
            series,
            ExprView::Call {
                function: Function::HistogramQuantile,
                args: seq![ExprView::Number(quantile), inner],
            },
            at,
            calc,
            read,
        ) == Outcome::Ok(
            Evaluated::Vector(
                crate::promeval::histogram_quantiles(read(quantile), vector, calc, read),
            ),
        ),
{
    let args = seq![ExprView::Number(quantile), inner];
    assert(args[0] == ExprView::Number(quantile) && args[1] == inner);
    assert(evaluated(series, args[0], at, calc, read) == Outcome::Ok(
        Evaluated::Scalar(read(quantile)),
    ));
}

/// A quantile that is none is answered with an infinity: below zero with the negative one,
/// and above one with the positive one, for every label set less the name and the bound.
pub proof fn law_no_quantile_is_infinite(
    quantile: u64,
    vector: Seq<Sampled>,
    calc: Calc,
    read: Literals,
)
    requires
        less(quantile, 0) || less(crate::double::ONE, quantile),
    ensures
        forall|i: int|
            0 <= i < crate::promeval::histogram_quantiles(quantile, vector, calc, read).len() ==> (
            #[trigger] crate::promeval::histogram_quantiles(quantile, vector, calc, read)[i]).1 == (
            if less(quantile, 0) {
                NEGATIVE_INFINITY
            } else {
                INFINITY
            }),
        forall|j: int|
            0 <= j < vector.len() ==> exists|i: int|
                0 <= i < crate::promeval::histogram_quantiles(quantile, vector, calc, read).len()
                    && (#[trigger] crate::promeval::histogram_quantiles(
                    quantile,
                    vector,
                    calc,
                    read,
                )[i]).0 == crate::promeval::boundless((#[trigger] vector[j]).0),
{
    let keys = crate::promeval::boundless_keys(vector);
    let groups = sorted_groups(keys);
    let out = crate::promeval::histogram_quantiles(quantile, vector, calc, read);
    law_numbers_are_ordered(quantile, 0, crate::double::ONE);
    assert(!crate::promeval::is_quantile(quantile));
    law_sorted_groups(keys);
    assert forall|j: int| 0 <= j < vector.len() implies exists|i: int|
        0 <= i < out.len() && (#[trigger] out[i]).0 == crate::promeval::boundless(
            (#[trigger] vector[j]).0,
        ) by {
        assert(keys[j] == crate::promeval::boundless(vector[j].0));
        let g = choose|g: int|
            0 <= g < groups.len() && keys[(#[trigger] groups[g])[0]] == keys[j]
                && groups[g].contains(j);
        assert(out[g].0 == keys[groups[g][0]]);
    }
}

} // verus!
