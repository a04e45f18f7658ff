//! What the query APIs answer, in terms of what is stored.
use vstd::prelude::*;

use crate::grouping::{
    chosen, law_a_sorted_group_is_all_of_its_labels, law_ordering_orders, lemma_chosen_with,
    lemma_ordered_places, lemma_place_is_ordered, lemma_same_order, lemma_sorted_groups, ordered,
    places_with, sorted_groups,
};
use crate::labels::{lookup, Pair};
use crate::logql::StageView;
use crate::loki::{
    comes_first, direction_of, entries_of, entry_of, in_direction, limit_of, loki_time, range_of,
    returned, scaled_time, since_window, stream_of, streams_of, Direction, EntryView, StreamView,
};
use crate::matcher::MatcherView;
use crate::meta::{accepted, accepted_streams, all_names, all_values};
use crate::otlp_encode::log_streams;
use crate::prometheus::{
    instant_request, matrix, point_labels, point_values, points_of, prometheus_time, range_request,
    step_time, InstantParams, Point, RangeParams,
};
use crate::promeval::{evaluated, Calc, Evaluated, Literals, Sampled, SeriesView};
use crate::promql::{metric_expr, ExprView};
use crate::record::LogView;
use crate::tempo::{duration_bound, in_scope, scopes_within, search_request, SearchParams};
use crate::text::{decimal, parse_unsigned, trim};

verus! {

// ---------------------------------------------------------------------------
// Log entries
// ---------------------------------------------------------------------------

/// Whether a time may stand before another: newest first backward, oldest first forward.
pub open spec fn may_precede(direction: Direction, a: u64, b: u64) -> bool {
    match direction {
        Direction::Backward => a >= b,
        Direction::Forward => a <= b,
    }
}

proof fn lemma_in_direction(records: Seq<LogView>, direction: Direction)
    ensures
        in_direction(records, direction).len() == records.len(),
        forall|k: int|
            0 <= k < records.len() ==> 0 <= #[trigger] in_direction(records, direction)[k]
                < records.len(),
        forall|a: int, b: int|
            0 <= a < b < records.len() ==> may_precede(
                direction,
                records[#[trigger] in_direction(records, direction)[a]].timestamp_nanos,
                records[#[trigger] in_direction(records, direction)[b]].timestamp_nanos,
            ),
{
    let n = records.len();
    let item = |i: int|
        if 0 <= i < n {
            records[i].timestamp_nanos as int
        } else {
            -1
        };
    let inside = |a: int, b: int| comes_first(direction, records[a], records[b]);
    let earlier = |a: int, b: int|
        match direction {
            Direction::Backward => item(a) > item(b),
            Direction::Forward => item(a) < item(b),
        };
    law_ordering_orders(n, earlier);
    lemma_same_order(n, inside, earlier);
    lemma_ordered_places(n, inside);
    let list = in_direction(records, direction);
    assert(list == ordered(n, inside));
    assert forall|a: int, b: int| 0 <= a < b < n implies may_precede(
        direction,
        records[#[trigger] list[a]].timestamp_nanos,
        records[#[trigger] list[b]].timestamp_nanos,
    ) by {
        assert(0 <= list[a] < n && 0 <= list[b] < n);
        assert(!earlier(list[b], list[a]));
    }
}

/// A backward query returns the newest records, newest first, and a forward one the oldest,
/// oldest first: as many as the limit allows, and no record that is left out should have stood
/// before one that is returned.
pub proof fn law_the_limit_keeps_the_first(
    records: Seq<LogView>,
    direction: Direction,
    limit: nat,
)
    ensures
        returned(records, direction, limit).len() == (if limit < records.len() {
            limit
        } else {
            records.len()
        }),
        forall|a: int, b: int|
            0 <= a < b < returned(records, direction, limit).len() ==> may_precede(
                direction,
                (#[trigger] returned(records, direction, limit)[a]).timestamp_nanos,
                (#[trigger] returned(records, direction, limit)[b]).timestamp_nanos,
            ),
        forall|p: int|
            0 <= p < records.len() ==> returned(records, direction, limit).contains(
                #[trigger] records[p],
            ) || none_after(returned(records, direction, limit), direction, records[p]),
        forall|a: int|
            0 <= a < returned(records, direction, limit).len() ==> records.contains(
                #[trigger] returned(records, direction, limit)[a],
            ),
{
    let n = records.len();
    let list = in_direction(records, direction);
    let inside = |a: int, b: int| comes_first(direction, records[a], records[b]);
    lemma_in_direction(records, direction);
    let out = returned(records, direction, limit);
    assert forall|a: int, b: int| 0 <= a < b < out.len() implies may_precede(
        direction,
        (#[trigger] out[a]).timestamp_nanos,
        (#[trigger] out[b]).timestamp_nanos,
    ) by {
        assert(out[a] == records[list[a]] && out[b] == records[list[b]]);
    }
    assert forall|p: int| 0 <= p < n implies out.contains(#[trigger] records[p]) || none_after(
        out,
        direction,
        records[p],
    ) by {
        lemma_place_is_ordered(n, inside, p);
        let at = choose|at: int| 0 <= at < ordered(n, inside).len() && ordered(n, inside)[at] == p;
        assert(list[at] == p);
        if at < out.len() {
            assert(out[at] == records[p]);
        } else {
            assert forall|i: int| 0 <= i < out.len() implies may_precede(
                direction,
                (#[trigger] out[i]).timestamp_nanos,
                records[p].timestamp_nanos,
            ) by {
                assert(out[i] == records[list[i]]);
            }
        }
    }
    assert forall|a: int| 0 <= a < out.len() implies records.contains(#[trigger] out[a]) by {
        assert(out[a] == records[list[a]]);
    }
}

/// Whether every record of an answer may stand before another one.
pub open spec fn none_after(answer: Seq<LogView>, direction: Direction, record: LogView) -> bool {
    forall|i: int|
        0 <= i < answer.len() ==> may_precede(
            direction,
            (#[trigger] answer[i]).timestamp_nanos,
            record.timestamp_nanos,
        )
}

/// An answer has one stream for each label set of its records; a stream holds all of the
/// records with its labels and no other, one entry each, in the direction asked for.
pub proof fn law_a_stream_holds_its_records(
    records: Seq<LogView>,
    direction: Direction,
    stages: Seq<StageView>,
)
    ensures
        forall|g: int|
            0 <= g < streams_of(records, direction, stages).len() ==> is_stream(
                #[trigger] streams_of(records, direction, stages)[g],
                records,
                direction,
                stages,
            ),
{
    let keys = log_streams(records);
    let groups = sorted_groups(keys);
    let out = streams_of(records, direction, stages);
    law_a_sorted_group_is_all_of_its_labels(keys);
    lemma_sorted_groups(keys);
    assert forall|g: int| 0 <= g < out.len() implies is_stream(
        #[trigger] out[g],
        records,
        direction,
        stages,
    ) by {
        assert(groups[g].len() > 0);
        assert(0 <= groups[g][0] < records.len());
        let key = keys[groups[g][0]];
        assert(out[g] == stream_of(records, groups[g], direction, stages));
        let has = |record: LogView| record.stream == key;
        lemma_chosen_with(records, keys, key, has);
        let own = chosen(records, groups[g]);
        assert(groups[g] == places_with(keys, key, records.len()));
        assert(own == records.filter(has));
        lemma_in_direction(own, direction);
        let sorted = chosen(own, in_direction(own, direction));
        assert(out[g].stream == key);
        assert(of_stream(records, out[g].stream) == own);
        assert forall|a: int, b: int| 0 <= a < b < sorted.len() implies may_precede(
            direction,
            (#[trigger] sorted[a]).timestamp_nanos,
            (#[trigger] sorted[b]).timestamp_nanos,
        ) by {
            let list = in_direction(own, direction);
            assert(sorted[a] == own[list[a]] && sorted[b] == own[list[b]]);
        }
        let inside = |a: int, b: int| comes_first(direction, own[a], own[b]);
        assert forall|p: int| 0 <= p < own.len() implies sorted.contains(#[trigger] own[p]) by {
            lemma_place_is_ordered(own.len(), inside, p);
            let at = choose|at: int|
                0 <= at < ordered(own.len(), inside).len() && ordered(own.len(), inside)[at] == p;
            assert(sorted[at] == own[p]);
        }
        assert(out[g].values == entries_of(sorted, stages));
        assert(is_direction_of(sorted, own, direction));
    }
}

/// Whether records are some others, in a direction.
pub open spec fn is_direction_of(
    ordered: Seq<LogView>,
    records: Seq<LogView>,
    direction: Direction,
) -> bool {
    &&& ordered.len() == records.len()
    &&& forall|p: int| 0 <= p < records.len() ==> ordered.contains(#[trigger] records[p])
    &&& forall|a: int, b: int|
        0 <= a < b < ordered.len() ==> may_precede(
            direction,
            (#[trigger] ordered[a]).timestamp_nanos,
            (#[trigger] ordered[b]).timestamp_nanos,
        )
}

/// Whether a stream holds the records with its labels, in a direction.
pub open spec fn is_stream(
    stream: StreamView,
    records: Seq<LogView>,
    direction: Direction,
    stages: Seq<StageView>,
) -> bool {
    exists|sorted: Seq<LogView>|
        is_direction_of(sorted, of_stream(records, stream.stream), direction) && stream.values
            == #[trigger] entries_of(sorted, stages)
}

/// The records with some labels.
pub open spec fn of_stream(records: Seq<LogView>, labels: Seq<Pair>) -> Seq<LogView> {
    records.filter(|record: LogView| record.stream == labels)
}

/// An entry shows when its record was made and what it says.
pub proof fn law_an_entry_shows_its_record(nanos: u64, line: Seq<char>, metadata: Seq<Pair>)
    ensures
        match entry_of(nanos, line, metadata) {
            EntryView::Plain(time, text) => metadata.len() == 0 && time == decimal(nanos as nat)
                && text == line,
            EntryView::WithMetadata(time, text, more) => metadata.len() > 0 && time == decimal(
                nanos as nat,
            ) && text == line && more == metadata,
        },
{
}

// ---------------------------------------------------------------------------
// Times and parameters
// ---------------------------------------------------------------------------

/// One instant is read alike in every unit: the same moment between 2001 and 2100 as seconds,
/// milliseconds, microseconds or nanoseconds.
pub proof fn law_units_are_told_by_magnitude(seconds: u64)
    requires
        978_307_200 <= seconds < 4_102_444_800,
    ensures
        scaled_time(seconds) == seconds * 1_000_000_000,
        scaled_time((seconds * 1_000) as u64) == seconds * 1_000_000_000,
        scaled_time((seconds * 1_000_000) as u64) == seconds * 1_000_000_000,
        scaled_time((seconds * 1_000_000_000) as u64) == seconds * 1_000_000_000,
{
}

/// A range goes from `start` to `end`. The end is now where none is given, and the start
/// `since` before the end, or six hours where neither is given, but never before zero.
pub proof fn law_a_range_is_as_asked_for(
    start: Option<Seq<char>>,
    end: Option<Seq<char>>,
    since: Option<Seq<char>>,
    now: u64,
)
    ensures
        match range_of(start, end, since, now) {
            Ok((from, to)) => {
                &&& end is None ==> to == now
                &&& end is Some && end->Some_0.len() > 0 ==> loki_time(end->Some_0) == Ok::<
                    u64,
                    crate::error::Fault,
                >(to)
                &&& start is Some && start->Some_0.len() > 0 ==> loki_time(start->Some_0) == Ok::<
                    u64,
                    crate::error::Fault,
                >(from)
                &&& start is None && since is None ==> from == (if to >= 21_600_000_000_000 {
                    to - 21_600_000_000_000
                } else {
                    0
                })
                &&& start is None && since is Some && since->Some_0.len() > 0 ==> match since_window(
                    since->Some_0,
                ) {
                    Ok(window) => from == (if to >= window {
                        to - window
                    } else {
                        0
                    }),
                    Err(_) => false,
                }
            },
            Err(_) => true,
        },
{
}

/// A limit is the number that is given, up to the greatest that is allowed, and the default
/// where none is given.
pub proof fn law_a_limit_is_as_asked_for(text: Seq<char>, default: usize, max: usize, n: nat)
    requires
        text.len() > 0,
        parse_unsigned(trim(text), usize::MAX as nat) == Some(n),
    ensures
        limit_of(None, default, max) == Ok::<usize, crate::error::Fault>(default),
        0 < n <= max ==> limit_of(Some(text), default, max) == Ok::<usize, crate::error::Fault>(
            n as usize,
        ),
        n > max && n > 0 ==> limit_of(Some(text), default, max) == Ok::<
            usize,
            crate::error::Fault,
        >(max),
        n == 0 ==> limit_of(Some(text), default, max) is Err,
{
}

/// A direction is the one that is named, backward where none is, and no other word is one.
pub proof fn law_a_direction_is_as_asked_for(text: Seq<char>)
    ensures
        direction_of(None) == Ok::<Direction, crate::error::Fault>(Direction::Backward),
        match direction_of(Some(text)) {
            Ok(Direction::Forward) => text == "forward"@,
            Ok(Direction::Backward) => text == "backward"@ || text.len() == 0,
            Err(_) => text != "forward"@ && text != "backward"@ && text.len() > 0,
        },
{
    reveal_strlit("forward");
    reveal_strlit("backward");
    assert("forward"@.len() == 7 && "backward"@.len() == 8);
}

// ---------------------------------------------------------------------------
// Metric ranges
// ---------------------------------------------------------------------------

/// A range holds what its expression evaluates to at each of its steps: every sample of every
/// step, at the time of the step, and nothing else.
pub proof fn law_every_step_is_evaluated(
    series: Seq<SeriesView>,
    e: ExprView,
    start: u64,
    step: u64,
    n: nat,
    calc: Calc,
    read: Literals,
    k: int,
    vector: Seq<Sampled>,
    i: int,
)
    requires
        0 <= k < n,
        points_of(series, e, start, step, n, calc, read) is Ok,
        evaluated(series, e, step_time(start, step, k), calc, read) == crate::promeval::Outcome::Ok(
            Evaluated::Vector(vector),
        ),
        0 <= i < vector.len(),
    ensures
        points_of(series, e, start, step, n, calc, read)->Ok_0.contains(
            (vector[i].0, (step_time(start, step, k), vector[i].1)),
        ),
    decreases n,
{
    let all = points_of(series, e, start, step, n, calc, read)->Ok_0;
    let rest = points_of(series, e, start, step, (n - 1) as nat, calc, read)->Ok_0;
    let point = (vector[i].0, (step_time(start, step, k), vector[i].1));
    if k < n - 1 {
        law_every_step_is_evaluated(
            series,
            e,
            start,
            step,
            (n - 1) as nat,
            calc,
            read,
            k,
            vector,
            i,
        );
        let at = choose|at: int| 0 <= at < rest.len() && rest[at] == point;
        assert(all[at] == point);
    } else {
        assert(all[rest.len() + i] == point);
    }
}

/// A matrix has one row per label set of its points: all the values with those labels, in the
/// order of the points.
pub proof fn law_a_row_holds_its_points(points: Seq<Point>)
    ensures
        forall|g: int|
            0 <= g < matrix(points).len() ==> (#[trigger] matrix(points)[g]).1 == values_with(
                points,
                matrix(points)[g].0,
            ),
{
    let keys = point_labels(points);
    let groups = sorted_groups(keys);
    let out = matrix(points);
    law_a_sorted_group_is_all_of_its_labels(keys);
    lemma_sorted_groups(keys);
    assert forall|g: int| 0 <= g < out.len() implies (#[trigger] out[g]).1 == values_with(
        points,
        out[g].0,
    ) by {
        assert(groups[g].len() > 0);
        assert(0 <= groups[g][0] < points.len());
        let key = keys[groups[g][0]];
        assert(out[g] == (points[groups[g][0]].0, point_values(points, groups[g])));
        let has = is_for(key);
        lemma_chosen_with(points, keys, key, has);
        let own = chosen(points, groups[g]);
        assert(groups[g] == places_with(keys, key, points.len()));
        assert(own == points.filter(has));
        assert(out[g].0 == key);
        assert(points_with(points, key) == own);
        assert(values_with(points, key) =~= own.map_values(|point: Point| point.1));
        assert(point_values(points, groups[g]) =~= own.map_values(|point: Point| point.1));
    }
}

/// The values of the points with some labels.
pub open spec fn values_with(points: Seq<Point>, labels: Seq<Pair>) -> Seq<(u64, u64)> {
    points_with(points, labels).map_values(|point: Point| point.1)
}

/// The points with some labels.
pub open spec fn points_with(points: Seq<Point>, labels: Seq<Pair>) -> Seq<Point> {
    points.filter(is_for(labels))
}

/// Whether a point has some labels.
pub open spec fn is_for(labels: Seq<Pair>) -> spec_fn(Point) -> bool {
    |point: Point| point.0 == labels
}

// ---------------------------------------------------------------------------
// Metadata
// ---------------------------------------------------------------------------

/// The names are those that some stream has.
pub proof fn law_names_are_what_streams_have(streams: Seq<Seq<Pair>>)
    ensures
        forall|name: Seq<char>| #[trigger]
            all_names(streams).contains(name) == (exists|i: int|
                0 <= i < streams.len() && has_name(#[trigger] streams[i], name)),
    decreases streams.len(),
{
    if streams.len() > 0 {
        let front = streams.drop_last();
        let n = streams.len() - 1;
        law_names_are_what_streams_have(front);
        let rest = all_names(front);
        let all = all_names(streams);
        assert forall|name: Seq<char>| #[trigger] all.contains(name) == (exists|i: int|
            0 <= i < streams.len() && has_name(#[trigger] streams[i], name)) by {
            if all.contains(name) {
                let k = choose|k: int| 0 <= k < all.len() && all[k] == name;
                if k < rest.len() {
                    assert(rest[k] == name);
                    assert(rest.contains(name));
                    let i = choose|i: int|
                        0 <= i < front.len() && has_name(#[trigger] front[i], name);
                    assert(streams[i] == front[i]);
                } else {
                    assert(streams[n][k - rest.len()].0 == name);
                    assert(has_name(streams[n], name));
                }
            }
            if exists|i: int| 0 <= i < streams.len() && has_name(#[trigger] streams[i], name) {
                let i = choose|i: int|
                    0 <= i < streams.len() && has_name(#[trigger] streams[i], name);
                if i < front.len() {
                    assert(front[i] == streams[i]);
                    assert(rest.contains(name));
                    let k = choose|k: int| 0 <= k < rest.len() && rest[k] == name;
                    assert(all[k] == name);
                } else {
                    let k = choose|k: int|
                        0 <= k < streams[n].len() && (#[trigger] streams[n][k]).0 == name;
                    assert(all[rest.len() + k] == name);
                }
            }
        }
    }
}

/// Whether a label set has a name.
pub open spec fn has_name(labels: Seq<Pair>, name: Seq<char>) -> bool {
    exists|k: int| 0 <= k < labels.len() && (#[trigger] labels[k]).0 == name
}

/// The values of a label are those that some stream has under its name.
pub proof fn law_values_are_what_streams_have(streams: Seq<Seq<Pair>>, name: Seq<char>)
    ensures
        forall|value: Seq<char>| #[trigger]
            all_values(streams, name).contains(value) == (exists|i: int|
                0 <= i < streams.len() && lookup(#[trigger] streams[i], name) == Some(value)),
    decreases streams.len(),
{
    if streams.len() > 0 {
        let front = streams.drop_last();
        let n = streams.len() - 1;
        law_values_are_what_streams_have(front, name);
        let rest = all_values(front, name);
        let all = all_values(streams, name);
        assert forall|value: Seq<char>| #[trigger] all.contains(value) == (exists|i: int|
            0 <= i < streams.len() && lookup(#[trigger] streams[i], name) == Some(value)) by {
            if all.contains(value) {
                let k = choose|k: int| 0 <= k < all.len() && all[k] == value;
                if k < rest.len() {
                    assert(rest[k] == value);
                    assert(rest.contains(value));
                    let i = choose|i: int|
                        0 <= i < front.len() && lookup(#[trigger] front[i], name) == Some(value);
                    assert(streams[i] == front[i]);
                } else {
                    assert(lookup(streams[n], name) == Some(value));
                }
            }
            if exists|i: int|
                0 <= i < streams.len() && lookup(#[trigger] streams[i], name) == Some(value) {
                let i = choose|i: int|
                    0 <= i < streams.len() && lookup(#[trigger] streams[i], name) == Some(value);
                if i < front.len() {
                    assert(front[i] == streams[i]);
                    assert(rest.contains(value));
                    let k = choose|k: int| 0 <= k < rest.len() && rest[k] == value;
                    assert(all[k] == value);
                } else {
                    assert(all[all.len() - 1] == value);
                }
            }
        }
    }
}

/// Of streams, those are given that some selector accepts, in order; without a selector all.
pub proof fn law_selectors_choose_streams(
    streams: Seq<Seq<Pair>>,
    sets: Seq<Seq<MatcherView>>,
)
    ensures
        accepted_streams(streams, sets) == streams.filter(
            |labels: Seq<Pair>| accepted(sets, labels),
        ),
        accepted_streams(streams, Seq::empty()) == streams,
    decreases streams.len(),
{
    reveal(Seq::filter);
    if streams.len() > 0 {
        law_selectors_choose_streams(streams.drop_last(), sets);
        assert(streams.drop_last().push(streams.last()) =~= streams);
    }
}

/// A metric range goes up to now and from an hour before its end, in steps of a minute, where
/// nothing else is given.
pub proof fn law_a_metric_range_is_as_asked_for(params: RangeParams, now: u64)
    ensures
        match range_request(params, now) {
            Ok(request) => {
                &&& params.end is None ==> request.end_nanos == now
                &&& params.start is None ==> request.start_nanos == (if request.end_nanos
                    >= 3_600_000_000_000 {
                    request.end_nanos - 3_600_000_000_000
                } else {
                    0
                })
                &&& params.step is None ==> request.step_nanos == 60_000_000_000
                &&& params.end is Some && params.end->Some_0@.len() > 0 ==> prometheus_time(
                    params.end->Some_0@,
                ) == Ok::<u64, crate::error::Fault>(request.end_nanos)
                &&& params.start is Some && params.start->Some_0@.len() > 0 ==> prometheus_time(
                    params.start->Some_0@,
                ) == Ok::<u64, crate::error::Fault>(request.start_nanos)
            },
            Err(_) => true,
        },
{
}

/// An instant is the time that is given, and now where none is.
pub proof fn law_an_instant_is_as_asked_for(params: InstantParams, now: u64)
    ensures
        match instant_request(params, now) {
            Ok(request) => {
                &&& params.time is None ==> request.at_nanos == now
                &&& params.time is Some && params.time->Some_0@.len() > 0 ==> prometheus_time(
                    params.time->Some_0@,
                ) == Ok::<u64, crate::error::Fault>(request.at_nanos)
                &&& params.query is Some && metric_expr(params.query->Some_0@) == Ok::<
                    ExprView,
                    crate::error::Fault,
                >(request.expr)
            },
            Err(_) => true,
        },
{
}

/// A search goes up to now and from an hour before its end, for twenty traces of any duration,
/// where nothing else is given.
pub proof fn law_a_search_is_as_asked_for(params: SearchParams, now: u64)
    ensures
        match search_request(params, now) {
            Ok(request) => {
                &&& params.end is None ==> request.end_nanos == now
                &&& params.start is None ==> request.start_nanos == (if request.end_nanos
                    >= 3_600_000_000_000 {
                    request.end_nanos - 3_600_000_000_000
                } else {
                    0
                })
                &&& request.start_nanos <= request.end_nanos
                &&& params.limit is None ==> request.limit == 20
                &&& params.min_duration is None ==> request.min_duration_nanos is None
                &&& params.max_duration is None ==> request.max_duration_nanos is None
                &&& params.min_duration is Some && params.min_duration->Some_0@.len() > 0
                    ==> request.min_duration_nanos is Some && duration_bound(
                    params.min_duration->Some_0@,
                ) == Ok::<u64, crate::error::Fault>(request.min_duration_nanos->Some_0)
                &&& params.max_duration is Some && params.max_duration->Some_0@.len() > 0
                    ==> request.max_duration_nanos is Some && duration_bound(
                    params.max_duration->Some_0@,
                ) == Ok::<u64, crate::error::Fault>(request.max_duration_nanos->Some_0)
            },
            Err(_) => true,
        },
{
}

/// Tags are listed by the scopes that are asked for, in their order; every one where none is.
pub proof fn law_scopes_are_as_asked_for(
    scopes: Seq<(Seq<char>, Seq<Seq<char>>)>,
    scope: Option<Seq<char>>,
)
    ensures
        scopes_within(scopes, None) == scopes,
        scopes_within(scopes, scope) == scopes.filter(
            |own: (Seq<char>, Seq<Seq<char>>)| in_scope(scope, own.0),
        ),
    decreases scopes.len(),
{
    reveal(Seq::filter);
    if scopes.len() > 0 {
        law_scopes_are_as_asked_for(scopes.drop_last(), scope);
        assert(scopes.drop_last().push(scopes.last()) =~= scopes);
    }
}

} // verus!
