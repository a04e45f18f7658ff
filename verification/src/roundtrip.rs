//! What is encoded is decoded to what it was.
use vstd::prelude::*;

use crate::decoded::{
    allowance, law_within_budget_nothing_is_dropped, lemma_records_in_turn, RejectionView, Tally,
    Weighed,
};
use crate::grouping::{grouped, lemma_grouped, sound_groups};
use crate::labels::{
    inserted, is_label_name, is_metric_name, kept, law_insert_keeps_order, law_insert_then_get,
    law_kept_labels, law_labels_are_what_they_read, law_sanitized_is_label_name,
    law_sanitizing_is_idempotent, lemma_lookup_is_a_pair, lookup, sanitized, sorted, Pair,
    APP_LABEL, LEVEL_LABEL, METRIC_NAME_LABEL, UNKNOWN_APP,
};
use crate::logs::{
    data_tally, law_app_and_level_are_always_there, law_marked_fits, law_normalized_is_nanoseconds,
    log_body, log_of, log_stream, log_time, normalized, oversized, resource_pairs, resource_tally,
    scope_attributes, scope_labels, scope_tally, time_of, ContextView, LogRecordView, TimeUnit,
    TRUNCATION_MARK,
};
use crate::otlp::{
    any_text, extended, id_of, law_normalizing_an_id_is_idempotent, unpromoted, FlexEnumView,
    KeyView,
};
use crate::otlp_encode::{
    dotted_name, id_text, log_streams, sample_name, span_streams, text_value, unnamed,
    wire_attributes, wire_event, wire_log, wire_log_group, wire_logs, wire_span, wire_span_group,
    wire_spans,
};
use crate::otlp_metrics::{
    law_names_become_valid, metric_named, numbers_tally, point_labels, unit_word, with_metric,
    MetricView, PointView, SumView,
};
use crate::record::{LogView, MetricKind, SampleView, Severity, SpanEventView, SpanView};
use crate::streams::{app_named, labels_rejected, promoted, too_many_labels, Reserved};
use crate::text::{lemma_text_before_asymmetric, text_before, trim, utf8_len};
use crate::traces::{span_events, span_of, span_rescaled, span_stream};

verus! {

// ---------------------------------------------------------------------------
// Label sets
// ---------------------------------------------------------------------------

/// Every name is a well-formed label name.
pub open spec fn well_named(labels: Seq<Pair>) -> bool {
    forall|i: int| 0 <= i < labels.len() ==> is_label_name(#[trigger] labels[i].0)
}

/// No name is empty.
pub open spec fn all_named(labels: Seq<Pair>) -> bool {
    forall|i: int| 0 <= i < labels.len() ==> (#[trigger] labels[i].0).len() > 0
}

/// Mapping a label name back to its dotted spelling is undone by sanitising.
pub proof fn law_dotted_names_are_sanitized_back(name: Seq<char>)
    requires
        is_label_name(name),
    ensures
        sanitized(dotted_name(name)) == name,
        dotted_name(name).len() > 0,
{
    reveal_strlit("service_name");
    reveal_strlit("service_namespace");
    reveal_strlit("service_version");
    reveal_strlit("deployment_environment");
    reveal_strlit("deployment_environment_name");
    reveal_strlit("service.name");
    reveal_strlit("service.namespace");
    reveal_strlit("service.version");
    reveal_strlit("deployment.environment");
    reveal_strlit("deployment.environment.name");
    assert(sanitized("service.name"@) =~= "service_name"@);
    assert(sanitized("service.namespace"@) =~= "service_namespace"@);
    assert(sanitized("service.version"@) =~= "service_version"@);
    assert(sanitized("deployment.environment"@) =~= "deployment_environment"@);
    assert(sanitized("deployment.environment.name"@) =~= "deployment_environment_name"@);
    law_sanitizing_is_idempotent(name);
}

proof fn lemma_insert_last(s: Seq<Pair>, name: Seq<char>, value: Seq<char>)
    requires
        forall|i: int| 0 <= i < s.len() ==> text_before(#[trigger] s[i].0, name),
    ensures
        inserted(s, name, value) == s.push((name, value)),
    decreases s.len(),
{
    if s.len() > 0 {
        let rest = s.drop_first();
        assert forall|i: int| 0 <= i < rest.len() implies text_before(#[trigger] rest[i].0, name) by {
            assert(rest[i] == s[i + 1]);
        }
        lemma_insert_last(rest, name, value);
        lemma_text_before_asymmetric(s[0].0, name);
        assert(inserted(s, name, value) =~= s.push((name, value)));
    } else {
        assert(inserted(s, name, value) =~= s.push((name, value)));
    }
}

/// Attributes written from a label set are read back as that label set.
proof fn lemma_rebuilt(labels: Seq<Pair>, n: int, map_names: bool)
    requires
        sorted(labels),
        0 <= n <= labels.len(),
        map_names ==> well_named(labels),
        all_named(labels),
    ensures
        extended(Seq::empty(), wire_attributes(labels, map_names).take(n), map_names)
            == labels.take(n),
    decreases n,
{
    let wire = wire_attributes(labels, map_names);
    if n == 0 {
        assert(wire.take(0) =~= Seq::empty());
        assert(labels.take(0) =~= Seq::empty());
    } else {
        lemma_rebuilt(labels, n - 1, map_names);
        assert(wire.take(n).drop_last() =~= wire.take(n - 1));
        let (name, value) = labels[n - 1];
        let kv = wire[n - 1];
        assert(wire.take(n).last() == kv);
        assert(any_text(text_value(value)) == Some(value));
        assert(labels[n - 1].0.len() > 0);
        if map_names {
            assert(is_label_name(labels[n - 1].0));
            law_dotted_names_are_sanitized_back(name);
        }
        assert forall|i: int| 0 <= i < labels.take(n - 1).len() implies text_before(
            #[trigger] labels.take(n - 1)[i].0,
            name,
        ) by {
            assert(labels.take(n - 1)[i] == labels[i]);
            assert(text_before(labels[i].0, labels[n - 1].0));
        }
        lemma_insert_last(labels.take(n - 1), name, value);
        assert(labels.take(n) =~= labels.take(n - 1).push((name, value)));
    }
}

/// What attributes are folded into keeps its order and stays named.
proof fn lemma_extended(labels: Seq<Pair>, attributes: Seq<KeyView>, sanitize: bool)
    requires
        sorted(labels),
        all_named(labels),
    ensures
        sorted(extended(labels, attributes, sanitize)),
        all_named(extended(labels, attributes, sanitize)),
    decreases attributes.len(),
{
    if attributes.len() > 0 {
        lemma_extended(labels, attributes.drop_last(), sanitize);
        let sofar = extended(labels, attributes.drop_last(), sanitize);
        let kv = attributes.last();
        let name = if sanitize {
            sanitized(kv.key)
        } else {
            kv.key
        };
        law_sanitized_is_label_name(kv.key);
        let text = match kv.value {
            Some(value) => any_text(value),
            None => None,
        };
        if kv.key.len() > 0 && text is Some {
            lemma_inserted_named(sofar, name, text->Some_0);
        }
    }
}

proof fn lemma_inserted_named(labels: Seq<Pair>, name: Seq<char>, value: Seq<char>)
    requires
        sorted(labels),
        all_named(labels),
        name.len() > 0,
    ensures
        sorted(inserted(labels, name, value)),
        all_named(inserted(labels, name, value)),
{
    law_insert_keeps_order(labels, name, value);
    let t = inserted(labels, name, value);
    assert forall|i: int| 0 <= i < t.len() implies (#[trigger] t[i].0).len() > 0 by {
        if t[i].0 != name {
            let j = choose|j: int| 0 <= j < labels.len() && labels[j].0 == t[i].0;
            assert(labels[j].0.len() > 0);
        }
    }
}

/// Attributes inherited by a record stay named.
proof fn lemma_unpromoted(target: Seq<Pair>, inherited: Seq<Pair>, stream: Seq<Pair>)
    requires
        sorted(target),
        all_named(target),
        all_named(inherited),
    ensures
        sorted(unpromoted(target, inherited, stream)),
        all_named(unpromoted(target, inherited, stream)),
    decreases inherited.len(),
{
    if inherited.len() > 0 {
        let rest = inherited.drop_last();
        assert forall|i: int| 0 <= i < rest.len() implies (#[trigger] rest[i].0).len() > 0 by {
            assert(rest[i] == inherited[i]);
        }
        lemma_unpromoted(target, rest, stream);
        assert(inherited[inherited.len() - 1].0.len() > 0);
        lemma_inserted_named(
            unpromoted(target, rest, stream),
            inherited.last().0,
            inherited.last().1,
        );
    }
}

/// Every name, once made a label name, is a label of `stream`.
spec fn claimed(inherited: Seq<Pair>, stream: Seq<Pair>) -> bool {
    forall|i: int|
        0 <= i < inherited.len() ==> lookup(stream, sanitized(#[trigger] inherited[i].0)) is Some
}

/// Nothing is added to the attributes of a record whose stream claims all it inherits.
proof fn lemma_nothing_unpromoted(target: Seq<Pair>, inherited: Seq<Pair>, stream: Seq<Pair>)
    requires
        claimed(inherited, stream),
    ensures
        unpromoted(target, inherited, stream) == target,
    decreases inherited.len(),
{
    if inherited.len() > 0 {
        let rest = inherited.drop_last();
        assert(claimed(rest, stream)) by {
            assert forall|i: int| 0 <= i < rest.len() implies lookup(
                stream,
                sanitized(#[trigger] rest[i].0),
            ) is Some by {
                assert(rest[i] == inherited[i]);
            }
        }
        lemma_nothing_unpromoted(target, rest, stream);
        assert(lookup(stream, sanitized(inherited[inherited.len() - 1].0)) is Some);
    }
}

proof fn lemma_lookup_present(labels: Seq<Pair>, i: int)
    requires
        0 <= i < labels.len(),
    ensures
        lookup(labels, labels[i].0) is Some,
    decreases labels.len(),
{
    if labels[0].0 != labels[i].0 {
        assert(labels.drop_first()[i - 1] == labels[i]);
        lemma_lookup_present(labels.drop_first(), i - 1);
    }
}

/// The attributes written from a stream are all claimed by it.
proof fn lemma_stream_claims(stream: Seq<Pair>, n: int)
    requires
        sorted(stream),
        well_named(stream),
        0 <= n <= stream.len(),
    ensures
        claimed(extended(Seq::empty(), wire_attributes(stream, true).take(n), false), stream),
        sorted(extended(Seq::empty(), wire_attributes(stream, true).take(n), false)),
    decreases n,
{
    let wire = wire_attributes(stream, true);
    let made = extended(Seq::empty(), wire.take(n), false);
    if n == 0 {
        assert(wire.take(0) =~= Seq::empty());
    } else {
        lemma_stream_claims(stream, n - 1);
        assert(wire.take(n).drop_last() =~= wire.take(n - 1));
        assert(wire.take(n).last() == wire[n - 1]);
        let (name, value) = stream[n - 1];
        let sofar = extended(Seq::empty(), wire.take(n - 1), false);
        assert(is_label_name(stream[n - 1].0));
        law_dotted_names_are_sanitized_back(name);
        law_insert_keeps_order(sofar, dotted_name(name), value);
        lemma_lookup_present(stream, n - 1);
        assert(made == inserted(sofar, dotted_name(name), value));
        assert forall|i: int| 0 <= i < made.len() implies lookup(
            stream,
            sanitized(#[trigger] made[i].0),
        ) is Some by {
            if made[i].0 != dotted_name(name) {
                let j = choose|j: int| 0 <= j < sofar.len() && sofar[j].0 == made[i].0;
                assert(lookup(stream, sanitized(sofar[j].0)) is Some);
            }
        }
    }
}

/// Promotion keeps names well formed.
proof fn lemma_promoted_names(
    labels: Seq<Pair>,
    inherited: Seq<Pair>,
    names: Seq<Seq<char>>,
    reserved: Reserved,
)
    requires
        sorted(labels),
        well_named(labels),
    ensures
        sorted(promoted(labels, inherited, names, reserved)),
        well_named(promoted(labels, inherited, names, reserved)),
    decreases names.len(),
{
    if names.len() > 0 {
        lemma_promoted_names(labels, inherited, names.drop_last(), reserved);
        let sofar = promoted(labels, inherited, names.drop_last(), reserved);
        let name = sanitized(names.last());
        law_sanitized_is_label_name(names.last());
        match lookup(inherited, name) {
            Some(value) => {
                law_insert_keeps_order(sofar, name, value);
                let t = inserted(sofar, name, value);
                assert forall|i: int| 0 <= i < t.len() implies is_label_name(#[trigger] t[i].0) by {
                    if t[i].0 != name {
                        let j = choose|j: int| 0 <= j < sofar.len() && sofar[j].0 == t[i].0;
                        assert(is_label_name(sofar[j].0));
                    }
                }
            },
            None => {},
        }
    }
}

/// A promoted name reads as it did in what it was promoted from.
proof fn lemma_promoted_lookup(
    labels: Seq<Pair>,
    inherited: Seq<Pair>,
    names: Seq<Seq<char>>,
    reserved: Reserved,
    k: int,
    name: Seq<char>,
)
    requires
        sorted(labels),
        lookup(labels, name) is None,
        !reserved.holds(name),
        0 <= k <= names.len(),
    ensures
        sorted(promoted(labels, inherited, names.take(k), reserved)),
        lookup(promoted(labels, inherited, names.take(k), reserved), name) is None || lookup(
            promoted(labels, inherited, names.take(k), reserved),
            name,
        ) == lookup(inherited, name),
        (exists|i: int| 0 <= i < k && sanitized(#[trigger] names[i]) == name) ==> lookup(
            promoted(labels, inherited, names.take(k), reserved),
            name,
        ) == lookup(inherited, name),
    decreases k,
{
    if k == 0 {
        assert(names.take(0) =~= Seq::empty());
    } else {
        lemma_promoted_lookup(labels, inherited, names, reserved, k - 1, name);
        assert(names.take(k).drop_last() =~= names.take(k - 1));
        assert(names.take(k).last() == names[k - 1]);
        let sofar = promoted(labels, inherited, names.take(k - 1), reserved);
        let added = sanitized(names[k - 1]);
        match lookup(inherited, added) {
            Some(value) => {
                law_insert_keeps_order(sofar, added, value);
                law_insert_then_get(sofar, added, value, name);
            },
            None => {},
        }
    }
}

/// Promoting from what was promoted promotes the same.
proof fn lemma_promoted_again(
    labels: Seq<Pair>,
    inherited: Seq<Pair>,
    names: Seq<Seq<char>>,
    reserved: Reserved,
    k: int,
)
    requires
        sorted(labels),
        forall|name: Seq<char>| !reserved.holds(name) ==> lookup(labels, name) is None,
        0 <= k <= names.len(),
    ensures
        promoted(
            labels,
            promoted(labels, inherited, names, reserved),
            names.take(k),
            reserved,
        ) == promoted(labels, inherited, names.take(k), reserved),
    decreases k,
{
    if k == 0 {
        assert(names.take(0) =~= Seq::empty());
    } else {
        lemma_promoted_again(labels, inherited, names, reserved, k - 1);
        assert(names.take(k).drop_last() =~= names.take(k - 1));
        assert(names.take(k).last() == names[k - 1]);
        let name = sanitized(names[k - 1]);
        if !reserved.holds(name) {
            lemma_promoted_lookup(
                labels,
                inherited,
                names,
                reserved,
                names.len() as int,
                name,
            );
            assert(names.take(names.len() as int) =~= names);
        }
    }
}

proof fn lemma_fixed_labels()
    ensures
        is_label_name(APP_LABEL@),
        is_label_name(LEVEL_LABEL@),
        APP_LABEL@ != LEVEL_LABEL@,
{
    reveal_strlit("app");
    reveal_strlit("level");
    assert(APP_LABEL@.len() != LEVEL_LABEL@.len());
}

// ---------------------------------------------------------------------------
// Logs
// ---------------------------------------------------------------------------

spec fn log_base(inherited: Seq<Pair>, severity: Severity) -> Seq<Pair> {
    inserted(
        inserted(Seq::empty(), APP_LABEL@, app_named(inherited)),
        LEVEL_LABEL@,
        severity.label(),
    )
}

proof fn lemma_log_base(inherited: Seq<Pair>, severity: Severity)
    ensures
        sorted(log_base(inherited, severity)),
        well_named(log_base(inherited, severity)),
        forall|name: Seq<char>|
            !(Reserved { app: true, level: true }).holds(name) ==> lookup(
                log_base(inherited, severity),
                name,
            ) is None,
{
    lemma_fixed_labels();
    let empty = Seq::<Pair>::empty();
    let one = inserted(empty, APP_LABEL@, app_named(inherited));
    law_insert_keeps_order(empty, APP_LABEL@, app_named(inherited));
    law_insert_keeps_order(one, LEVEL_LABEL@, severity.label());
    assert(well_named(one));
    let two = log_base(inherited, severity);
    assert forall|i: int| 0 <= i < two.len() implies is_label_name(#[trigger] two[i].0) by {
        if two[i].0 != LEVEL_LABEL@ {
            let j = choose|j: int| 0 <= j < one.len() && one[j].0 == two[i].0;
            assert(is_label_name(one[j].0));
        }
    }
    assert forall|name: Seq<char>|
        !(Reserved { app: true, level: true }).holds(name) implies lookup(two, name) is None by {
        law_insert_then_get(empty, APP_LABEL@, app_named(inherited), name);
        law_insert_then_get(one, LEVEL_LABEL@, severity.label(), name);
    }
}

/// The stream labels that a stream itself leads to are that stream.
pub proof fn law_streams_are_stable(inherited: Seq<Pair>, severity: Severity, ctx: ContextView)
    ensures
        ({
            let stream = log_stream(inherited, severity, ctx);
            log_stream(stream, severity, ctx) == stream && sorted(stream) && well_named(stream)
        }),
{
    let stream = log_stream(inherited, severity, ctx);
    let reserved = Reserved { app: true, level: true };
    let names = ctx.ingest.stream_labels;
    lemma_log_base(inherited, severity);
    lemma_promoted_names(log_base(inherited, severity), inherited, names, reserved);
    law_app_and_level_are_always_there(inherited, severity, ctx);
    assert(app_named(stream) == app_named(inherited));
    lemma_promoted_again(
        log_base(inherited, severity),
        inherited,
        names,
        reserved,
        names.len() as int,
    );
    assert(names.take(names.len() as int) =~= names);
}

/// An id that is absent or normalised.
pub open spec fn proper_id(id: Option<Seq<char>>) -> bool {
    match id {
        Some(id) => id_of(id) == Some(id),
        None => true,
    }
}

/// A record as decoding under `ctx` stores them.
pub open spec fn stored_log(record: LogView, ctx: ContextView) -> bool {
    &&& exists|inherited: Seq<Pair>|
        record.stream == #[trigger] log_stream(inherited, record.severity, ctx)
    &&& labels_rejected(record.stream, "stream labels"@, ctx.limits) is None
    &&& normalized(record.timestamp_nanos) == Some((record.timestamp_nanos, TimeUnit::Nanos))
    &&& record.severity == Severity::Unknown ==> Severity::worded(record.severity_text)
        == Severity::Unknown
    &&& utf8_len(record.body) <= ctx.limits.max_log_line_bytes
    &&& sorted(record.attributes)
    &&& all_named(record.attributes)
    &&& record.attributes.len() <= ctx.limits.max_attrs_per_record
    &&& proper_id(record.trace_id)
    &&& proper_id(record.span_id)
}

proof fn lemma_id_text(id: Option<Seq<char>>)
    requires
        proper_id(id),
    ensures
        id_of(id_text(id)) == id,
{
    if id is None {
        assert(id_text(id).len() == 0);
        assert(crate::text::trim(id_text(id)) =~= Seq::empty());
    }
}

proof fn lemma_well_named(labels: Seq<Pair>)
    requires
        well_named(labels),
    ensures
        all_named(labels),
{
    assert forall|i: int| 0 <= i < labels.len() implies (#[trigger] labels[i].0).len() > 0 by {
        assert(is_label_name(labels[i].0));
    }
}

/// The labels and attributes that the records of a stream that was written inherit.
proof fn lemma_inherited(stream: Seq<Pair>)
    requires
        sorted(stream),
        well_named(stream),
    ensures
        resource_pairs(Some(wire_attributes(stream, true)), true) == stream,
        claimed(resource_pairs(Some(wire_attributes(stream, true)), false), stream),
{
    let wire = wire_attributes(stream, true);
    let n = stream.len() as int;
    lemma_well_named(stream);
    lemma_rebuilt(stream, n, true);
    lemma_stream_claims(stream, n);
    assert(wire.take(n) =~= wire);
    assert(stream.take(n) =~= stream);
}

/// A log record survives being encoded and decoded: it comes back as it was.
pub proof fn law_a_log_record_round_trips(record: LogView, ctx: ContextView)
    requires
        stored_log(record, ctx),
    ensures
        ({
            let resource = Some(wire_attributes(record.stream, true));
            let raw = wire_log(record);
            &&& log_of(
                raw,
                scope_labels(resource_pairs(resource, true), None),
                scope_attributes(resource_pairs(resource, false), None),
                ctx,
            ) == Ok::<LogView, RejectionView>(record)
            &&& log_time(raw, ctx).1 == TimeUnit::Nanos
            &&& !oversized(raw, ctx)
        }),
{
    let raw = wire_log(record);
    let inherited = choose|inherited: Seq<Pair>|
        record.stream == #[trigger] log_stream(inherited, record.severity, ctx);
    law_streams_are_stable(inherited, record.severity, ctx);
    lemma_inherited(record.stream);
    let n = record.attributes.len() as int;
    let wire = wire_attributes(record.attributes, false);
    lemma_rebuilt(record.attributes, n, false);
    assert(wire.take(n) =~= wire);
    assert(record.attributes.take(n) =~= record.attributes);
    lemma_nothing_unpromoted(
        record.attributes,
        resource_pairs(Some(wire_attributes(record.stream, true)), false),
        record.stream,
    );
    lemma_id_text(record.trace_id);
    lemma_id_text(record.span_id);
    assert(any_text(text_value(record.body)) == Some(record.body));
    assert(log_body(raw) == record.body);
    assert(crate::logs::log_severity(raw) == record.severity);
}

/// Records in the order in which they go out: group by group.
pub open spec fn in_groups<V>(records: Seq<V>, groups: Seq<Seq<int>>, n: nat) -> Seq<V>
    decreases n,
{
    if n == 0 || n > groups.len() {
        Seq::empty()
    } else {
        in_groups(records, groups, (n - 1) as nat) + groups[n - 1].map_values(|i: int| records[i])
    }
}

/// A request that comes to these records, with nothing refused or corrected, within what it
/// may hold.
pub open spec fn clean<V: Weighed>(records: Seq<V>, ctx: ContextView) -> Tally<V> {
    Tally::none(allowance(ctx.limits)).with_records(records)
}

/// Log records survive being encoded and decoded together: every one comes back as it
/// was, group by group, and none is refused, rescaled or cut.
pub proof fn law_log_records_round_trip(records: Seq<LogView>, ctx: ContextView)
    requires
        forall|i: int| 0 <= i < records.len() ==> stored_log(#[trigger] records[i], ctx),
    ensures
        ({
            let groups = grouped(log_streams(records), records.len());
            let all = in_groups(records, groups, groups.len());
            let wire = wire_logs(records);
            let after = data_tally(wire, wire.len(), ctx, allowance(ctx.limits));
            &&& after == clean(all, ctx)
            &&& !after.over() ==> after.records == all && after.rejections.len() == 0
                && after.rescaled == 0 && after.truncated == 0
        }),
{
    let groups = grouped(log_streams(records), records.len());
    lemma_grouped(log_streams(records), records.len());
    lemma_log_groups(records, groups, groups.len(), ctx);
    let all = in_groups(records, groups, groups.len());
    if !clean(all, ctx).over() {
        let none = Tally::none(allowance(ctx.limits));
        law_within_budget_nothing_is_dropped(none, all);
        assert(none.records + all =~= all);
    }
}

proof fn lemma_log_groups(records: Seq<LogView>, groups: Seq<Seq<int>>, n: nat, ctx: ContextView)
    requires
        forall|i: int| 0 <= i < records.len() ==> stored_log(#[trigger] records[i], ctx),
        groups == grouped(log_streams(records), records.len()),
        sound_groups(groups, log_streams(records), records.len() as int),
        n <= groups.len(),
    ensures
        data_tally(wire_logs(records), n, ctx, allowance(ctx.limits)) == clean(
            in_groups(records, groups, n),
            ctx,
        ),
    decreases n,
{
    if n > 0 {
        lemma_log_groups(records, groups, (n - 1) as nat, ctx);
        let group = groups[n - 1];
        let logs = wire_log_group(records, group);
        assert(wire_logs(records)[n - 1] == logs);
        let rest = in_groups(records, groups, (n - 1) as nat);
        let before = clean(rest, ctx);
        let scope = logs.scope_logs[0];
        assert(group.len() > 0);
        lemma_log_group(before, records, group, group.len(), ctx);
        reveal_with_fuel(resource_tally, 2);
        let after = resource_tally(before, logs, 1, ctx);
        assert(logs.scope_logs.len() == 1);
        let more = group.map_values(|i: int| records[i]);
        assert(more.take(group.len() as int) =~= more);
        lemma_records_in_turn(Tally::none(allowance(ctx.limits)), rest, more);
    } else {
        assert(clean(in_groups(records, groups, 0), ctx) == Tally::<LogView>::none(
            allowance(ctx.limits),
        ));
    }
}

proof fn lemma_log_group(
    before: Tally<LogView>,
    records: Seq<LogView>,
    group: Seq<int>,
    n: nat,
    ctx: ContextView,
)
    requires
        forall|i: int| 0 <= i < records.len() ==> stored_log(#[trigger] records[i], ctx),
        n <= group.len(),
        group.len() > 0,
        forall|k: int|
            0 <= k < group.len() ==> 0 <= #[trigger] group[k] < records.len() && records[group[k]].stream
                == records[group[0]].stream,
    ensures
        ({
            let logs = wire_log_group(records, group);
            scope_tally(
                before,
                logs.scope_logs[0].log_records,
                n,
                scope_labels(resource_pairs(logs.resource, true), None),
                scope_attributes(resource_pairs(logs.resource, false), None),
                ctx,
            ) == before.with_records(group.map_values(|i: int| records[i]).take(n as int))
        }),
    decreases n,
{
    let logs = wire_log_group(records, group);
    let out = group.map_values(|i: int| records[i]);
    if n == 0 {
        assert(out.take(0).len() == 0);
    } else {
        lemma_log_group(before, records, group, (n - 1) as nat, ctx);
        let record = records[group[n - 1]];
        assert(stored_log(records[group[n - 1]], ctx));
        assert(logs.scope_logs[0].log_records[n - 1] == wire_log(record));
        law_a_log_record_round_trips(record, ctx);
        assert(out.take(n as int).drop_last() =~= out.take(n - 1));
        assert(out.take(n as int).last() == record);
    }
}

/// What decoding keeps is what encoding can take: a decoded record is stored as records
/// are, as long as the clock is plausible and a cut body can hold its mark.
pub proof fn law_decoded_logs_are_stored(
    raw: LogRecordView,
    inherited: Seq<Pair>,
    inherited_attributes: Seq<Pair>,
    ctx: ContextView,
)
    requires
        all_named(inherited_attributes),
        normalized(ctx.now_nanos) == Some((ctx.now_nanos, TimeUnit::Nanos)),
        ctx.limits.max_log_line_bytes >= utf8_len(TRUNCATION_MARK@),
    ensures
        match log_of(raw, inherited, inherited_attributes, ctx) {
            Ok(record) => stored_log(record, ctx),
            Err(_) => true,
        },
{
    match log_of(raw, inherited, inherited_attributes, ctx) {
        Ok(record) => {
            assert(record.stream == log_stream(inherited, record.severity, ctx));
            let own = extended(Seq::empty(), raw.attributes, false);
            lemma_extended(Seq::empty(), raw.attributes, false);
            lemma_unpromoted(own, inherited_attributes, record.stream);
            law_marked_fits(log_body(raw), ctx.limits.max_log_line_bytes as nat);
            law_normalizing_an_id_is_idempotent(raw.trace_id);
            law_normalizing_an_id_is_idempotent(raw.span_id);
            match raw.time_unix_nano {
                Some(time) => law_normalized_is_nanoseconds(time),
                None => {},
            }
            match raw.observed_time_unix_nano {
                Some(time) => law_normalized_is_nanoseconds(time),
                None => {},
            }
        },
        Err(_) => {},
    }
}

// ---------------------------------------------------------------------------
// Spans
// ---------------------------------------------------------------------------

/// The stream labels that a span's stream itself leads to are that stream.
pub proof fn law_span_streams_are_stable(inherited: Seq<Pair>, ctx: ContextView)
    ensures
        ({
            let stream = span_stream(inherited, ctx);
            span_stream(stream, ctx) == stream && sorted(stream) && well_named(stream)
        }),
{
    let stream = span_stream(inherited, ctx);
    let reserved = Reserved { app: true, level: false };
    let names = ctx.ingest.stream_labels;
    let empty = Seq::<Pair>::empty();
    let base = inserted(empty, APP_LABEL@, app_named(inherited));
    lemma_fixed_labels();
    law_insert_keeps_order(empty, APP_LABEL@, app_named(inherited));
    assert(well_named(base));
    assert forall|name: Seq<char>| !reserved.holds(name) implies lookup(base, name) is None by {
        law_insert_then_get(empty, APP_LABEL@, app_named(inherited), name);
    }
    lemma_promoted_names(base, inherited, names, reserved);
    crate::traces::law_app_is_always_there(inherited, ctx);
    assert(app_named(stream) == app_named(inherited));
    lemma_promoted_again(base, inherited, names, reserved, names.len() as int);
    assert(names.take(names.len() as int) =~= names);
}

/// An event as decoding stores them.
pub open spec fn stored_event(event: SpanEventView) -> bool {
    &&& normalized(event.time_nanos) == Some((event.time_nanos, TimeUnit::Nanos))
    &&& sorted(event.attributes)
    &&& all_named(event.attributes)
}

/// A span as decoding under `ctx` stores them.
pub open spec fn stored_span(span: SpanView, ctx: ContextView) -> bool {
    &&& exists|inherited: Seq<Pair>| span.stream == #[trigger] span_stream(inherited, ctx)
    &&& too_many_labels(span.stream, "stream labels"@, ctx.limits) is None
    &&& id_of(span.trace_id) == Some(span.trace_id)
    &&& id_of(span.span_id) == Some(span.span_id)
    &&& proper_id(span.parent_span_id)
    &&& normalized(span.start_nanos) == Some((span.start_nanos, TimeUnit::Nanos))
    &&& normalized(span.end_nanos) == Some((span.end_nanos, TimeUnit::Nanos))
    &&& sorted(span.attributes)
    &&& all_named(span.attributes)
    &&& span.attributes.len() <= ctx.limits.max_attrs_per_record
    &&& forall|i: int| 0 <= i < span.events.len() ==> stored_event(#[trigger] span.events[i])
    &&& span.links.len() == 0
}

/// A span survives being encoded and decoded: it comes back as it was.
pub proof fn law_a_span_round_trips(span: SpanView, ctx: ContextView)
    requires
        stored_span(span, ctx),
    ensures
        ({
            let resource = Some(wire_attributes(span.stream, true));
            let raw = wire_span(span);
            &&& span_of(raw, scope_labels(resource_pairs(resource, true), None), ctx) == Ok::<
                SpanView,
                RejectionView,
            >(span)
            &&& !span_rescaled(raw, ctx)
        }),
{
    let raw = wire_span(span);
    let inherited = choose|inherited: Seq<Pair>|
        span.stream == #[trigger] span_stream(inherited, ctx);
    law_span_streams_are_stable(inherited, ctx);
    lemma_inherited(span.stream);
    let n = span.attributes.len() as int;
    let wire = wire_attributes(span.attributes, false);
    lemma_rebuilt(span.attributes, n, false);
    assert(wire.take(n) =~= wire);
    assert(span.attributes.take(n) =~= span.attributes);
    lemma_id_text(span.parent_span_id);
    crate::record::law_numbers_are_read_back(span.kind, span.status);
    let events = span_events(raw.events, span.start_nanos);
    assert forall|i: int| 0 <= i < span.events.len() implies events[i] == span.events[i] by {
        let event = span.events[i];
        assert(stored_event(span.events[i]));
        let m = event.attributes.len() as int;
        let own = wire_attributes(event.attributes, false);
        lemma_rebuilt(event.attributes, m, false);
        assert(own.take(m) =~= own);
        assert(event.attributes.take(m) =~= event.attributes);
        assert(raw.events[i] == wire_event(event));
    }
    assert(events =~= span.events);
    assert(span.links =~= Seq::empty());
    if span.status_message.len() == 0 {
        assert(span.status_message =~= Seq::empty());
    }
}

/// Spans survive being encoded and decoded together: every one comes back as it was,
/// group by group, and none is refused or rescaled.
pub proof fn law_spans_round_trip(spans: Seq<SpanView>, ctx: ContextView)
    requires
        forall|i: int| 0 <= i < spans.len() ==> stored_span(#[trigger] spans[i], ctx),
    ensures
        ({
            let groups = grouped(span_streams(spans), spans.len());
            let all = in_groups(spans, groups, groups.len());
            let wire = wire_spans(spans);
            let after = crate::traces::data_tally(wire, wire.len(), ctx, allowance(ctx.limits));
            &&& after == clean(all, ctx)
            &&& !after.over() ==> after.records == all && after.rejections.len() == 0
                && after.rescaled == 0 && after.truncated == 0
        }),
{
    let groups = grouped(span_streams(spans), spans.len());
    lemma_grouped(span_streams(spans), spans.len());
    lemma_span_groups(spans, groups, groups.len(), ctx);
    let all = in_groups(spans, groups, groups.len());
    if !clean(all, ctx).over() {
        let none = Tally::none(allowance(ctx.limits));
        law_within_budget_nothing_is_dropped(none, all);
        assert(none.records + all =~= all);
    }
}

proof fn lemma_span_groups(spans: Seq<SpanView>, groups: Seq<Seq<int>>, n: nat, ctx: ContextView)
    requires
        forall|i: int| 0 <= i < spans.len() ==> stored_span(#[trigger] spans[i], ctx),
        groups == grouped(span_streams(spans), spans.len()),
        sound_groups(groups, span_streams(spans), spans.len() as int),
        n <= groups.len(),
    ensures
        crate::traces::data_tally(wire_spans(spans), n, ctx, allowance(ctx.limits)) == clean(
            in_groups(spans, groups, n),
            ctx,
        ),
    decreases n,
{
    if n > 0 {
        lemma_span_groups(spans, groups, (n - 1) as nat, ctx);
        let group = groups[n - 1];
        let out = wire_span_group(spans, group);
        assert(wire_spans(spans)[n - 1] == out);
        let rest = in_groups(spans, groups, (n - 1) as nat);
        let before = clean(rest, ctx);
        assert(group.len() > 0);
        lemma_span_group(before, spans, group, group.len(), ctx);
        reveal_with_fuel(crate::traces::resource_tally, 2);
        assert(out.scope_spans.len() == 1);
        let more = group.map_values(|i: int| spans[i]);
        assert(more.take(group.len() as int) =~= more);
        lemma_records_in_turn(Tally::none(allowance(ctx.limits)), rest, more);
    } else {
        assert(clean(in_groups(spans, groups, 0), ctx) == Tally::<SpanView>::none(
            allowance(ctx.limits),
        ));
    }
}

proof fn lemma_span_group(
    before: Tally<SpanView>,
    spans: Seq<SpanView>,
    group: Seq<int>,
    n: nat,
    ctx: ContextView,
)
    requires
        forall|i: int| 0 <= i < spans.len() ==> stored_span(#[trigger] spans[i], ctx),
        n <= group.len(),
        group.len() > 0,
        forall|k: int|
            0 <= k < group.len() ==> 0 <= #[trigger] group[k] < spans.len() && spans[group[k]].stream
                == spans[group[0]].stream,
    ensures
        ({
            let out = wire_span_group(spans, group);
            crate::traces::scope_tally(
                before,
                out.scope_spans[0].spans,
                n,
                scope_labels(resource_pairs(out.resource, true), None),
                ctx,
            ) == before.with_records(group.map_values(|i: int| spans[i]).take(n as int))
        }),
    decreases n,
{
    let out = wire_span_group(spans, group);
    let kept = group.map_values(|i: int| spans[i]);
    if n == 0 {
        assert(kept.take(0).len() == 0);
    } else {
        lemma_span_group(before, spans, group, (n - 1) as nat, ctx);
        let span = spans[group[n - 1]];
        assert(stored_span(spans[group[n - 1]], ctx));
        assert(out.scope_spans[0].spans[n - 1] == wire_span(span));
        law_a_span_round_trips(span, ctx);
        assert(kept.take(n as int).drop_last() =~= kept.take(n - 1));
        assert(kept.take(n as int).last() == span);
    }
}

// ---------------------------------------------------------------------------
// Samples
// ---------------------------------------------------------------------------

/// A sample's data point as the decoder reads it.
pub open spec fn wire_point(sample: SampleView) -> PointView {
    PointView {
        time_unix_nano: Some(sample.timestamp_nanos),
        attributes: wire_attributes(unnamed(sample.series), true),
        as_double: Some(sample.value),
        as_int: None,
    }
}

/// A sample as the decoder reads what the encoder writes of it: a metric with one data
/// point. A counter goes out as a sum that is not monotonic.
pub open spec fn wire_sample(sample: SampleView) -> MetricView {
    let point = wire_point(sample);
    if sample.kind == MetricKind::Counter {
        MetricView {
            name: sample_name(sample.series),
            sum: Some(
                SumView {
                    data_points: seq![point],
                    temporality: FlexEnumView::Number(0),
                    is_monotonic: false,
                },
            ),
            ..MetricView::none()
        }
    } else {
        MetricView {
            name: sample_name(sample.series),
            gauge: Some(seq![point]),
            ..MetricView::none()
        }
    }
}

/// A sample as ingest stores it: a named series of an application, within the limits, at a
/// plausible time.
pub open spec fn stored_sample(sample: SampleView, ctx: ContextView) -> bool {
    &&& sorted(sample.series)
    &&& well_named(sample.series)
    &&& is_metric_name(sample_name(sample.series))
    &&& lookup(sample.series, APP_LABEL@) is Some
    &&& labels_rejected(sample.series, "labels"@, ctx.limits) is None
    &&& TimeUnit::Nanos.plausible(sample.timestamp_nanos)
}

/// Attributes that are written from labels are set over what is there.
proof fn lemma_extended_reads(base: Seq<Pair>, labels: Seq<Pair>, n: int, name: Seq<char>)
    requires
        sorted(base),
        sorted(labels),
        well_named(labels),
        0 <= n <= labels.len(),
    ensures
        sorted(extended(base, wire_attributes(labels, true).take(n), true)),
        lookup(extended(base, wire_attributes(labels, true).take(n), true), name) == (match lookup(
            labels.take(n),
            name,
        ) {
            Some(value) => Some(value),
            None => lookup(base, name),
        }),
    decreases n,
{
    let wire = wire_attributes(labels, true);
    if n == 0 {
        assert(wire.take(0) =~= Seq::empty());
        assert(labels.take(0) =~= Seq::empty());
    } else {
        lemma_extended_reads(base, labels, n - 1, name);
        assert(wire.take(n).drop_last() =~= wire.take(n - 1));
        let (own, value) = labels[n - 1];
        assert(wire.take(n).last() == wire[n - 1]);
        assert(any_text(text_value(value)) == Some(value));
        assert(is_label_name(labels[n - 1].0));
        law_dotted_names_are_sanitized_back(own);
        let before = extended(base, wire.take(n - 1), true);
        law_insert_keeps_order(before, own, value);
        law_insert_then_get(before, own, value, name);
        let front = labels.take(n - 1);
        assert(labels.take(n) =~= front.push(labels[n - 1]));
        assert forall|i: int| 0 <= i < front.len() implies text_before(#[trigger] front[i].0, own) by {
            assert(text_before(labels[i].0, labels[n - 1].0));
        }
        lemma_insert_last(front, own, value);
        assert(sorted(front)) by {
            assert forall|i: int, j: int| 0 <= i < j < front.len() implies text_before(
                #[trigger] front[i].0,
                #[trigger] front[j].0,
            ) by {
                assert(text_before(labels[i].0, labels[j].0));
            }
        }
        law_insert_then_get(front, own, value, name);
    }
}

proof fn lemma_unnamed(series: Seq<Pair>)
    ensures
        unnamed(series) == kept(series, seq![METRIC_NAME_LABEL@]),
    decreases series.len(),
{
    if series.len() > 0 {
        lemma_unnamed(series.drop_last());
        let names = seq![METRIC_NAME_LABEL@];
        assert(names[0] == METRIC_NAME_LABEL@);
        assert(names.contains(series.last().0) == (series.last().0 == METRIC_NAME_LABEL@));
    }
}

proof fn lemma_nothing_promoted(labels: Seq<Pair>, names: Seq<Seq<char>>, reserved: Reserved)
    ensures
        promoted(labels, Seq::empty(), names, reserved) == labels,
    decreases names.len(),
{
    if names.len() > 0 {
        lemma_nothing_promoted(labels, names.drop_last(), reserved);
    }
}

proof fn lemma_metric_name(name: Seq<char>)
    requires
        is_metric_name(name),
    ensures
        trim(name) == name,
        metric_named(name, Seq::empty(), false) == name,
{
    law_names_become_valid(name);
    assert(crate::labels::is_metric_char(name[0]));
    assert(crate::labels::is_metric_char(name[name.len() - 1]));
    assert(name.last() == name[name.len() - 1]);
    lemma_no_unit();
}

proof fn lemma_no_unit()
    ensures
        unit_word(trim(Seq::<char>::empty())) is None,
{
    reveal_strlit("d");
    reveal_strlit("h");
    reveal_strlit("min");
    reveal_strlit("s");
    reveal_strlit("ms");
    reveal_strlit("us");
    reveal_strlit("ns");
    reveal_strlit("By");
    reveal_strlit("KiBy");
    reveal_strlit("MiBy");
    reveal_strlit("GiBy");
    reveal_strlit("TiBy");
    reveal_strlit("KBy");
    reveal_strlit("MBy");
    reveal_strlit("GBy");
    reveal_strlit("TBy");
    reveal_strlit("%");
    reveal_strlit("Cel");
    reveal_strlit("Hz");
    reveal_strlit("V");
    reveal_strlit("A");
    reveal_strlit("J");
    reveal_strlit("W");
}

/// The series of a data point that was written from a sample is the sample's.
proof fn lemma_series_rebuilt(series: Seq<Pair>, ctx: ContextView)
    requires
        sorted(series),
        well_named(series),
        lookup(series, METRIC_NAME_LABEL@) is Some,
        lookup(series, APP_LABEL@) is Some,
    ensures
        point_labels(
            sample_name(series),
            wire_attributes(unnamed(series), true),
            Seq::empty(),
            UNKNOWN_APP@,
            ctx,
        ) == series,
{
    let name = sample_name(series);
    let none = Seq::<Pair>::empty();
    let own = unnamed(series);
    let names = seq![METRIC_NAME_LABEL@];
    let first = inserted(none, METRIC_NAME_LABEL@, name);
    let base = inserted(first, APP_LABEL@, UNKNOWN_APP@);
    law_insert_keeps_order(none, METRIC_NAME_LABEL@, name);
    law_insert_keeps_order(first, APP_LABEL@, UNKNOWN_APP@);
    lemma_nothing_promoted(
        base,
        ctx.ingest.stream_labels,
        Reserved { app: false, level: false },
    );
    lemma_unnamed(series);
    law_kept_labels(series, names);
    assert(names[0] == METRIC_NAME_LABEL@);
    assert forall|i: int| 0 <= i < own.len() implies is_label_name(#[trigger] own[i].0) by {
        assert(series.contains(own[i]));
        let k = choose|k: int| 0 <= k < series.len() && series[k] == own[i];
        assert(is_label_name(series[k].0));
    }
    let wire = wire_attributes(own, true);
    let n = own.len() as int;
    assert(wire.take(n) =~= wire);
    assert(own.take(n) =~= own);
    let out = extended(base, wire, true);
    assert forall|key: Seq<char>| #[trigger] lookup(out, key) == lookup(series, key) by {
        lemma_extended_reads(base, own, n, key);
        law_insert_then_get(none, METRIC_NAME_LABEL@, name, key);
        law_insert_then_get(first, APP_LABEL@, UNKNOWN_APP@, key);
        lemma_kept_reads(series, own, key);
    }
    lemma_extended_reads(base, own, n, APP_LABEL@);
    law_labels_are_what_they_read(out, series);
}

/// Without the metric's name the other labels read as before.
proof fn lemma_kept_reads(series: Seq<Pair>, own: Seq<Pair>, key: Seq<char>)
    requires
        sorted(series),
        own == kept(series, seq![METRIC_NAME_LABEL@]),
        lookup(series, APP_LABEL@) is Some,
    ensures
        lookup(own, key) == (if key == METRIC_NAME_LABEL@ {
            None
        } else {
            lookup(series, key)
        }),
        lookup(own, APP_LABEL@) is Some,
{
    let names = seq![METRIC_NAME_LABEL@];
    assert(names[0] == METRIC_NAME_LABEL@);
    law_kept_labels(series, names);
    reveal_strlit("__name__");
    reveal_strlit("app");
    assert(APP_LABEL@ != METRIC_NAME_LABEL@) by {
        assert(APP_LABEL@.len() != METRIC_NAME_LABEL@.len());
    }
    lemma_kept_reads_one(series, own, key);
    lemma_kept_reads_one(series, own, APP_LABEL@);
}

proof fn lemma_kept_reads_one(series: Seq<Pair>, own: Seq<Pair>, key: Seq<char>)
    requires
        sorted(series),
        own == kept(series, seq![METRIC_NAME_LABEL@]),
    ensures
        lookup(own, key) == (if key == METRIC_NAME_LABEL@ {
            None
        } else {
            lookup(series, key)
        }),
{
    let names = seq![METRIC_NAME_LABEL@];
    assert(names[0] == METRIC_NAME_LABEL@);
    law_kept_labels(series, names);
    match lookup(own, key) {
        Some(value) => {
            lemma_lookup_is_a_pair(own, key, value);
            let i = choose|i: int| 0 <= i < own.len() && own[i] == (key, value);
            assert(series.contains(own[i]) && !names.contains(own[i].0));
            lemma_lookup_is_a_pair(series, key, value);
        },
        None => {
            match lookup(series, key) {
                Some(value) => {
                    lemma_lookup_is_a_pair(series, key, value);
                    let i = choose|i: int| 0 <= i < series.len() && series[i] == (key, value);
                    if key != METRIC_NAME_LABEL@ {
                        assert(!names.contains(series[i].0));
                        assert(own.contains(series[i]));
                        lemma_lookup_is_a_pair(own, key, value);
                    }
                },
                None => {},
            }
        },
    }
}

/// A sample survives being encoded and decoded: its series, its time and its value come
/// back as they were. Its kind comes back as a gauge, since the encoder claims no more of
/// it than is known.
pub proof fn law_a_sample_round_trips(sample: SampleView, ctx: ContextView)
    requires
        stored_sample(sample, ctx),
    ensures
        with_metric(
            Tally::none(allowance(ctx.limits)),
            wire_sample(sample),
            Seq::empty(),
            app_named(Seq::empty()),
            ctx,
        ) == clean(seq![SampleView { kind: MetricKind::Gauge, ..sample }], ctx),
{
    let name = sample_name(sample.series);
    reveal_strlit("");
    lemma_metric_name(name);
    assert(lookup(sample.series, METRIC_NAME_LABEL@) is Some);
    assert(app_named(Seq::<Pair>::empty()) == UNKNOWN_APP@);
    lemma_series_rebuilt(sample.series, ctx);
    let none = Tally::<SampleView>::none(allowance(ctx.limits));
    let out = SampleView { kind: MetricKind::Gauge, ..sample };
    reveal_with_fuel(numbers_tally, 2);
    assert(time_of(Some(sample.timestamp_nanos)) == Some((sample.timestamp_nanos, TimeUnit::Nanos)));
    let after = with_metric(none, wire_sample(sample), Seq::empty(), UNKNOWN_APP@, ctx);
    assert(seq![out].drop_last() =~= Seq::<SampleView>::empty());
    assert(none.with_records(Seq::<SampleView>::empty()) == none);
    assert(after == none.with(Ok(out)));
}

} // verus!
