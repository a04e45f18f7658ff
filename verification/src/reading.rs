//! A planned read holds everything that an expression looks at.
use vstd::prelude::*;

use crate::labels::Pair;
use crate::lexer::saturated;
use crate::matcher::{all_match, MatcherView};
use crate::promeval::{
    evaluated, instant_of, latest, law_the_read_covers_every_selector, matching_places, measured,
    nameless, pushdown, rate_of, rates_of, shifted_time, window, Calc, Evaluated, Literals, Outcome,
    Sampled, SeriesView,
};
use crate::promql::{
    arities_match, law_lookback_covers_every_selector, reach, selectors_of, selectors_of_args,
    widest_reach, ExprView, Function, SelectorView, DEFAULT_LOOKBACK,
};
use crate::seconds::minus;

verus! {

// ---------------------------------------------------------------------------
// What a read leaves
// ---------------------------------------------------------------------------

/// The samples of a time range.
pub open spec fn samples_within(samples: Seq<(u64, u64)>, from: u64, end: u64) -> Seq<(u64, u64)>
    decreases samples.len(),
{
    if samples.len() == 0 {
        samples
    } else if from <= samples.last().0 <= end {
        samples_within(samples.drop_last(), from, end).push(samples.last())
    } else {
        samples_within(samples.drop_last(), from, end)
    }
}

/// The series that matchers accept, with their samples of a time range. One without a
/// sample in it is not there.
pub open spec fn narrowed(
    series: Seq<SeriesView>,
    matchers: Seq<MatcherView>,
    from: u64,
    end: u64,
) -> Seq<SeriesView>
    decreases series.len(),
{
    if series.len() == 0 {
        series
    } else {
        let rest = narrowed(series.drop_last(), matchers, from, end);
        let last = series.last();
        let left = samples_within(last.samples, from, end);
        if all_match(matchers, last.labels) && left.len() > 0 {
            rest.push(SeriesView { labels: last.labels, samples: left })
        } else {
            rest
        }
    }
}

// ---------------------------------------------------------------------------
// One series
// ---------------------------------------------------------------------------

proof fn lemma_latest_within(samples: Seq<(u64, u64)>, from: u64, end: u64, floor: u64, at: u64)
    requires
        from <= floor,
        at <= end,
    ensures
        latest(samples_within(samples, from, end), floor, at) == latest(samples, floor, at),
    decreases samples.len(),
{
    if samples.len() > 0 {
        let front = samples.drop_last();
        lemma_latest_within(front, from, end, floor, at);
        if from <= samples.last().0 <= end {
            let left = samples_within(front, from, end).push(samples.last());
            assert(left.drop_last() =~= samples_within(front, from, end));
        }
    }
}

proof fn lemma_window_within(samples: Seq<(u64, u64)>, from: u64, end: u64, floor: u64, at: u64)
    requires
        from <= floor,
        at <= end,
    ensures
        window(samples_within(samples, from, end), floor, at) == window(samples, floor, at),
    decreases samples.len(),
{
    if samples.len() > 0 {
        let front = samples.drop_last();
        lemma_window_within(front, from, end, floor, at);
        if from <= samples.last().0 <= end {
            let left = samples_within(front, from, end).push(samples.last());
            assert(left.drop_last() =~= samples_within(front, from, end));
        }
    }
}

// ---------------------------------------------------------------------------
// Every series
// ---------------------------------------------------------------------------

proof fn lemma_places_below(series: Seq<SeriesView>, matchers: Seq<MatcherView>, n: nat)
    requires
        n <= series.len(),
    ensures
        forall|k: int|
            0 <= k < matching_places(series, matchers, n).len() ==> 0 <= #[trigger] matching_places(
                series,
                matchers,
                n,
            )[k] < n,
    decreases n,
{
    if n > 0 {
        lemma_places_below(series, matchers, (n - 1) as nat);
        let rest = matching_places(series, matchers, (n - 1) as nat);
        let all = matching_places(series, matchers, n);
        assert forall|k: int| 0 <= k < all.len() implies 0 <= #[trigger] all[k] < n by {
            if k < rest.len() {
                assert(all[k] == rest[k]);
            }
        }
    }
}

/// Places in a list of series are those in a longer one.
proof fn lemma_places_of_front(
    series: Seq<SeriesView>,
    longer: Seq<SeriesView>,
    matchers: Seq<MatcherView>,
    n: nat,
)
    requires
        n <= series.len() <= longer.len(),
        forall|i: int| 0 <= i < series.len() ==> series[i] == #[trigger] longer[i],
    ensures
        matching_places(series, matchers, n) == matching_places(longer, matchers, n),
    decreases n,
{
    if n > 0 {
        lemma_places_of_front(series, longer, matchers, (n - 1) as nat);
        assert(series[n - 1] == longer[n - 1]);
    }
}

proof fn lemma_measured_of_front(
    series: Seq<SeriesView>,
    longer: Seq<SeriesView>,
    places: Seq<int>,
    value: spec_fn(Seq<(u64, u64)>) -> Option<u64>,
)
    requires
        series.len() <= longer.len(),
        forall|i: int| 0 <= i < series.len() ==> series[i] == #[trigger] longer[i],
        forall|k: int| 0 <= k < places.len() ==> 0 <= #[trigger] places[k] < series.len(),
    ensures
        measured(series, places, value) == measured(longer, places, value),
    decreases places.len(),
{
    if places.len() > 0 {
        let front = places.drop_last();
        assert forall|k: int| 0 <= k < front.len() implies 0 <= #[trigger] front[k]
            < series.len() by {
            assert(front[k] == places[k]);
        }
        lemma_measured_of_front(series, longer, front, value);
        assert(places.last() == places[places.len() - 1]);
        assert(series[places.last()] == longer[places.last()]);
    }
}

/// What all the series that match have for a value.
spec fn measured_all(
    series: Seq<SeriesView>,
    matchers: Seq<MatcherView>,
    value: spec_fn(Seq<(u64, u64)>) -> Option<u64>,
) -> Seq<Sampled> {
    measured(series, matching_places(series, matchers, series.len()), value)
}

/// The last series adds what it has behind what the others have.
proof fn lemma_measured_step(
    series: Seq<SeriesView>,
    matchers: Seq<MatcherView>,
    value: spec_fn(Seq<(u64, u64)>) -> Option<u64>,
)
    requires
        series.len() > 0,
    ensures
        measured_all(series, matchers, value) == ({
            let rest = measured_all(series.drop_last(), matchers, value);
            if all_match(matchers, series.last().labels) {
                match value(series.last().samples) {
                    Some(v) => rest.push((nameless(series.last().labels), v)),
                    None => rest,
                }
            } else {
                rest
            }
        }),
{
    let front = series.drop_last();
    let n = front.len();
    let places = matching_places(front, matchers, n);
    lemma_places_of_front(front, series, matchers, n);
    lemma_places_below(front, matchers, n);
    lemma_measured_of_front(front, series, places, value);
    assert(series[n as int] == series.last());
    if all_match(matchers, series.last().labels) {
        let all = places.push(n as int);
        assert(matching_places(series, matchers, series.len()) == all);
        assert(all.drop_last() =~= places);
        assert(all.last() == n);
    }
}

/// A read does not change what the series that match have for a value, where it does not
/// change the value of any one.
proof fn lemma_measured_narrowed(
    series: Seq<SeriesView>,
    wanted: Seq<MatcherView>,
    matchers: Seq<MatcherView>,
    from: u64,
    end: u64,
    value: spec_fn(Seq<(u64, u64)>) -> Option<u64>,
)
    requires
        forall|labels: Seq<Pair>|
            all_match(wanted, labels) ==> #[trigger] all_match(matchers, labels),
        forall|samples: Seq<(u64, u64)>| #[trigger]
            value(samples_within(samples, from, end)) == value(samples),
        value(Seq::<(u64, u64)>::empty()) is None,
    ensures
        measured_all(narrowed(series, matchers, from, end), wanted, value) == measured_all(
            series,
            wanted,
            value,
        ),
    decreases series.len(),
{
    if series.len() > 0 {
        let front = series.drop_last();
        let last = series.last();
        let left = samples_within(last.samples, from, end);
        lemma_measured_narrowed(front, wanted, matchers, from, end, value);
        lemma_measured_step(series, wanted, value);
        let few = narrowed(series, matchers, from, end);
        assert(all_match(wanted, last.labels) ==> all_match(matchers, last.labels));
        assert(value(left) == value(last.samples));
        if all_match(matchers, last.labels) && left.len() > 0 {
            lemma_measured_step(few, wanted, value);
            assert(few.drop_last() =~= narrowed(front, matchers, from, end));
        } else if all_match(matchers, last.labels) {
            assert(left =~= Seq::<(u64, u64)>::empty());
        }
    }
}

// ---------------------------------------------------------------------------
// Expressions
// ---------------------------------------------------------------------------

/// Whether every selector's matchers imply the read's, and none reaches back further than
/// the read.
spec fn is_covered(selectors: Seq<SelectorView>, matchers: Seq<MatcherView>, lookback: nat) -> bool {
    &&& forall|i: int| 0 <= i < selectors.len() ==> reach(#[trigger] selectors[i]) <= lookback
    &&& forall|i: int, labels: Seq<Pair>|
        0 <= i < selectors.len() && all_match((#[trigger] selectors[i]).matchers, labels)
            ==> #[trigger] all_match(matchers, labels)
}

proof fn lemma_covered_part(
    part: Seq<SelectorView>,
    selectors: Seq<SelectorView>,
    matchers: Seq<MatcherView>,
    lookback: nat,
)
    requires
        is_covered(selectors, matchers, lookback),
        forall|i: int| 0 <= i < part.len() ==> selectors.contains(#[trigger] part[i]),
    ensures
        is_covered(part, matchers, lookback),
{
    assert forall|i: int| 0 <= i < part.len() implies reach(#[trigger] part[i]) <= lookback by {
        let k = choose|k: int| 0 <= k < selectors.len() && selectors[k] == part[i];
        assert(reach(selectors[k]) <= lookback);
    }
    assert forall|i: int, labels: Seq<Pair>|
        0 <= i < part.len() && all_match((#[trigger] part[i]).matchers, labels) implies #[trigger] all_match(
        matchers,
        labels,
    ) by {
        let k = choose|k: int| 0 <= k < selectors.len() && selectors[k] == part[i];
        assert(all_match(selectors[k].matchers, labels));
    }
}

/// The selectors of an argument are among those of the call.
proof fn lemma_argument_selectors(call: ExprView, i: int, n: nat)
    requires
        call is Call,
        0 <= i < n <= call->args.len(),
    ensures
        forall|k: int|
            0 <= k < selectors_of(call->args[i]).len() ==> selectors_of_args(call, n).contains(
                #[trigger] selectors_of(call->args[i])[k],
            ),
    decreases n,
{
    let own = selectors_of(call->args[i]);
    let all = selectors_of_args(call, n);
    let before = selectors_of_args(call, (n - 1) as nat);
    let last = selectors_of(call->args[n - 1]);
    assert(all == before + last);
    if i < n - 1 {
        lemma_argument_selectors(call, i, (n - 1) as nat);
    }
    assert forall|k: int| 0 <= k < own.len() implies all.contains(#[trigger] own[k]) by {
        if i < n - 1 {
            let at = choose|at: int| 0 <= at < before.len() && before[at] == own[k];
            assert(all[at] == own[k]);
        } else {
            assert(all[before.len() + k] == own[k]);
        }
    }
}

/// The time that a selector is evaluated at, less its range, is not before the read.
proof fn lemma_floor(selector: SelectorView, range: u64, start: u64, at: u64, lookback: nat)
    requires
        start <= at,
        range + offset_of(selector) <= lookback,
    ensures
        minus(start, saturated(lookback)) <= minus(shifted_time(selector, at), range),
        shifted_time(selector, at) <= at,
{
}

/// How far back a selector's offset goes.
pub open spec fn offset_of(selector: SelectorView) -> nat {
    match selector.offset {
        Some(offset) => offset as nat,
        None => 0,
    }
}

proof fn lemma_instant(
    series: Seq<SeriesView>,
    selector: SelectorView,
    matchers: Seq<MatcherView>,
    lookback: nat,
    start: u64,
    end: u64,
    at: u64,
)
    requires
        start <= at <= end,
        is_covered(seq![selector], matchers, lookback),
        DEFAULT_LOOKBACK + offset_of(selector) <= lookback,
    ensures
        instant_of(
            narrowed(series, matchers, minus(start, saturated(lookback)), end),
            selector,
            at,
        ) == instant_of(series, selector, at),
{
    let from = minus(start, saturated(lookback));
    let moment = shifted_time(selector, at);
    let wanted = selector.matchers;
    lemma_implied(selector, matchers, lookback);
    let floor = minus(moment, DEFAULT_LOOKBACK);
    lemma_floor(selector, DEFAULT_LOOKBACK, start, at, lookback);
    let value = |samples: Seq<(u64, u64)>| latest(samples, floor, moment);
    assert forall|samples: Seq<(u64, u64)>| #[trigger]
        value(samples_within(samples, from, end)) == value(samples) by {
        lemma_latest_within(samples, from, end, floor, moment);
    }
    lemma_measured_narrowed(series, wanted, matchers, from, end, value);
}

proof fn lemma_implied(selector: SelectorView, matchers: Seq<MatcherView>, lookback: nat)
    requires
        is_covered(seq![selector], matchers, lookback),
    ensures
        reach(selector) <= lookback,
        forall|labels: Seq<Pair>|
            all_match(selector.matchers, labels) ==> #[trigger] all_match(matchers, labels),
{
    let one = seq![selector];
    assert(one[0] == selector);
    assert(reach(one[0]) <= lookback);
    assert forall|labels: Seq<Pair>| all_match(
        selector.matchers,
        labels,
    ) implies #[trigger] all_match(matchers, labels) by {
        assert(all_match(one[0].matchers, labels));
    }
}

proof fn lemma_rates(
    series: Seq<SeriesView>,
    selector: SelectorView,
    range: u64,
    matchers: Seq<MatcherView>,
    lookback: nat,
    start: u64,
    end: u64,
    at: u64,
    per_second: bool,
    calc: Calc,
)
    requires
        start <= at <= end,
        is_covered(seq![selector], matchers, lookback),
        selector.range == Some(range),
    ensures
        rates_of(
            narrowed(series, matchers, minus(start, saturated(lookback)), end),
            selector,
            range,
            at,
            per_second,
            calc,
        ) == rates_of(series, selector, range, at, per_second, calc),
{
    let from = minus(start, saturated(lookback));
    let moment = shifted_time(selector, at);
    let wanted = selector.matchers;
    lemma_implied(selector, matchers, lookback);
    let floor = minus(moment, range);
    lemma_floor(selector, range, start, at, lookback);
    let value = |samples: Seq<(u64, u64)>|
        rate_of(samples, floor, moment, range, per_second, calc);
    assert forall|samples: Seq<(u64, u64)>| #[trigger]
        value(samples_within(samples, from, end)) == value(samples) by {
        lemma_window_within(samples, from, end, floor, moment);
    }
    lemma_measured_narrowed(series, wanted, matchers, from, end, value);
}

/// Whether a function is called on a range of samples.
pub open spec fn is_range_call(function: Function) -> bool {
    function == Function::Rate || function == Function::Increase
}

/// Whether every selector that is read for its latest value, whose lookback is the default
/// one whatever range it carries, looks back no further than `lookback`.
pub open spec fn looks_within(e: ExprView, lookback: nat) -> bool
    decreases e,
{
    match e {
        ExprView::Number(_) => true,
        ExprView::Selector(selector) => DEFAULT_LOOKBACK + offset_of(selector) <= lookback,
        ExprView::Negate(inner) => looks_within(*inner, lookback),
        ExprView::Call { function, args } => is_range_call(function) || (forall|i: int|
            0 <= i < args.len() ==> looks_within(#[trigger] args[i], lookback)),
        ExprView::Aggregation { op: _, grouping: _, param: _, inner } => looks_within(
            *inner,
            lookback,
        ),
        ExprView::Binary { op: _, left, right } => looks_within(*left, lookback) && looks_within(
            *right,
            lookback,
        ),
    }
}

/// Two outcomes that differ at most in the samples of a vector.
spec fn same_kind(a: Outcome, b: Outcome) -> bool {
    match (a, b) {
        (Ok(Evaluated::Scalar(x)), Ok(Evaluated::Scalar(y))) => x == y,
        (Ok(Evaluated::Vector(_)), Ok(Evaluated::Vector(_))) => true,
        (Err(x), Err(y)) => x == y,
        _ => false,
    }
}

/// Which samples there are changes no scalar and no refusal.
proof fn lemma_same_kind(
    a: Seq<SeriesView>,
    b: Seq<SeriesView>,
    e: ExprView,
    at: u64,
    calc: Calc,
    read: Literals,
)
    requires
        arities_match(e),
    ensures
        same_kind(evaluated(a, e, at, calc, read), evaluated(b, e, at, calc, read)),
    decreases e,
{
    match e {
        ExprView::Number(_) | ExprView::Selector(_) => {},
        ExprView::Negate(inner) => {
            lemma_same_kind(a, b, *inner, at, calc, read);
        },
        ExprView::Call { function, args } => {
            assert forall|i: int| 0 <= i < args.len() implies same_kind(
                evaluated(a, #[trigger] args[i], at, calc, read),
                evaluated(b, args[i], at, calc, read),
            ) by {
                lemma_same_kind(a, b, args[i], at, calc, read);
            }
            assert(args.len() == function.takes());
            assert(same_kind(
                evaluated(a, args[0], at, calc, read),
                evaluated(b, args[0], at, calc, read),
            ));
            if args.len() > 1 {
                assert(same_kind(
                    evaluated(a, args[1], at, calc, read),
                    evaluated(b, args[1], at, calc, read),
                ));
            }
        },
        ExprView::Aggregation { op, grouping, param, inner } => {
            lemma_same_kind(a, b, *inner, at, calc, read);
            match param {
                Some(k) => {
                    lemma_same_kind(a, b, *k, at, calc, read);
                },
                None => {},
            }
        },
        ExprView::Binary { op, left, right } => {
            lemma_same_kind(a, b, *left, at, calc, read);
            lemma_same_kind(a, b, *right, at, calc, read);
        },
    }
}

proof fn lemma_enough(
    series: Seq<SeriesView>,
    e: ExprView,
    matchers: Seq<MatcherView>,
    lookback: nat,
    start: u64,
    end: u64,
    at: u64,
    calc: Calc,
    read: Literals,
)
    requires
        start <= at <= end,
        arities_match(e),
        is_covered(selectors_of(e), matchers, lookback),
        looks_within(e, lookback),
    ensures
        evaluated(
            narrowed(series, matchers, minus(start, saturated(lookback)), end),
            e,
            at,
            calc,
            read,
        ) == evaluated(series, e, at, calc, read),
    decreases e,
{
    let few = narrowed(series, matchers, minus(start, saturated(lookback)), end);
    match e {
        ExprView::Number(_) => {},
        ExprView::Selector(selector) => {
            lemma_instant(series, selector, matchers, lookback, start, end, at);
        },
        ExprView::Negate(inner) => {
            lemma_enough(series, *inner, matchers, lookback, start, end, at, calc, read);
        },
        ExprView::Call { function, args } => {
            assert(args.len() == function.takes());
            assert forall|i: int| 0 <= i < args.len() implies is_covered(
                selectors_of(#[trigger] args[i]),
                matchers,
                lookback,
            ) by {
                lemma_argument_selectors(e, i, args.len());
                lemma_covered_part(
                    selectors_of(args[i]),
                    selectors_of(e),
                    matchers,
                    lookback,
                );
            }
            if is_range_call(function) {
                assert(is_covered(selectors_of(args[0]), matchers, lookback));
                match args[0] {
                    ExprView::Selector(selector) => match selector.range {
                        Some(range) => {
                            lemma_rates(
                                series,
                                selector,
                                range,
                                matchers,
                                lookback,
                                start,
                                end,
                                at,
                                function == Function::Rate,
                                calc,
                            );
                        },
                        None => {},
                    },
                    _ => {},
                }
            } else {
                assert(looks_within(args[0], lookback));
                assert(is_covered(selectors_of(args[0]), matchers, lookback));
                assert(arities_match(args[0]));
                lemma_enough(series, args[0], matchers, lookback, start, end, at, calc, read);
                if args.len() > 1 {
                    assert(looks_within(args[1], lookback));
                    assert(is_covered(selectors_of(args[1]), matchers, lookback));
                    assert(arities_match(args[1]));
                    lemma_enough(series, args[1], matchers, lookback, start, end, at, calc, read);
                }
            }
        },
        ExprView::Aggregation { op, grouping, param, inner } => {
            lemma_enough(series, *inner, matchers, lookback, start, end, at, calc, read);
            match param {
                Some(k) => {
                    lemma_same_kind(few, series, *k, at, calc, read);
                },
                None => {},
            }
        },
        ExprView::Binary { op, left, right } => {
            let (x, y) = (selectors_of(*left), selectors_of(*right));
            let all = selectors_of(e);
            assert(all == x + y);
            assert forall|i: int| 0 <= i < x.len() implies all.contains(#[trigger] x[i]) by {
                assert(all[i] == x[i]);
            }
            assert forall|i: int| 0 <= i < y.len() implies all.contains(#[trigger] y[i]) by {
                assert(all[x.len() + i] == y[i]);
            }
            lemma_covered_part(x, all, matchers, lookback);
            lemma_covered_part(y, all, matchers, lookback);
            lemma_enough(series, *left, matchers, lookback, start, end, at, calc, read);
            lemma_enough(series, *right, matchers, lookback, start, end, at, calc, read);
        },
    }
}

// ---------------------------------------------------------------------------
// Laws
// ---------------------------------------------------------------------------

/// The planned read is enough: at every step of a query, an expression evaluates on the
/// series that the plan's matchers accept, with their samples of the plan's time range, to
/// what it evaluates to on everything there is. The expression must not ask for the latest
/// value of a selector that carries a range and an offset so long that the read does not
/// go back to it.
pub proof fn law_the_planned_read_is_enough(
    series: Seq<SeriesView>,
    e: ExprView,
    start: u64,
    end: u64,
    at: u64,
    calc: Calc,
    read: Literals,
)
    requires
        start <= at <= end,
        arities_match(e),
        looks_within(e, widest_reach(selectors_of(e))),
    ensures
        evaluated(
            narrowed(
                series,
                pushdown(selectors_of(e)),
                minus(start, saturated(widest_reach(selectors_of(e)))),
                end,
            ),
            e,
            at,
            calc,
            read,
        ) == evaluated(series, e, at, calc, read),
{
    let selectors = selectors_of(e);
    let lookback = widest_reach(selectors);
    let matchers = pushdown(selectors);
    law_lookback_covers_every_selector(selectors);
    assert forall|i: int, labels: Seq<Pair>|
        0 <= i < selectors.len() && all_match((#[trigger] selectors[i]).matchers, labels)
            implies #[trigger] all_match(matchers, labels) by {
        law_the_read_covers_every_selector(selectors, i, labels);
    }
    lemma_enough(series, e, matchers, lookback, start, end, at, calc, read);
}

/// A selector without a range reaches exactly as far back as its latest value is looked
/// for, so an expression that uses ranges only under `rate` and `increase` is one that the
/// planned read is enough for.
pub proof fn law_instant_selectors_look_within(selectors: Seq<SelectorView>, i: int)
    requires
        0 <= i < selectors.len(),
        selectors[i].range is None,
    ensures
        looks_within(ExprView::Selector(selectors[i]), widest_reach(selectors)),
{
    law_lookback_covers_every_selector(selectors);
    assert(reach(selectors[i]) <= widest_reach(selectors));
}

} // verus!
