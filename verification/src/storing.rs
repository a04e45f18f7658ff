//! What is stored of telemetry, in terms of what was sent.
use vstd::prelude::*;

use crate::decoded::RejectReason;
use crate::double::double_bits;
use crate::labels::{
    inserted, is_name_char, law_insert_keeps_order, law_insert_then_get, lookup, lookup_relaxed,
    sanitized, sorted, Pair, APP_LABEL, METRIC_NAME_LABEL,
};
use crate::logs::{log_severity, log_time, time_of, ContextView, LogRecordView, TimeUnit};
use crate::otlp::{any_text, extended, AnyView, FlexEnumView, KeyView};
use crate::otlp_metrics::{
    bucket_sample, cumulative, histogram_samples, point_value, prometheus_named, HistogramView,
    PointView,
};
use crate::record::{MetricKind, SampleView, Severity};
use crate::remote_write::{sample_of, with_app};
use crate::streams::{app_named, promoted, Reserved};
use crate::text::{is_digit, signed_decimal};

verus! {

// ---------------------------------------------------------------------------
// Labels
// ---------------------------------------------------------------------------

/// A label name keeps every character that may stand in one, in its place; any other becomes
/// `_`, and so does what a name would begin with where it is empty or begins with a digit.
pub proof fn law_a_label_name_keeps_what_it_can(s: Seq<char>)
    ensures
        ({
            let shift = if s.len() == 0 || is_digit(s[0]) {
                1int
            } else {
                0
            };
            &&& sanitized(s).len() == s.len() + shift
            &&& shift == 1 ==> sanitized(s)[0] == '_'
            &&& forall|i: int|
                0 <= i < s.len() ==> #[trigger] sanitized(s)[i + shift] == (if is_name_char(s[i]) {
                    s[i]
                } else {
                    '_'
                })
        }),
{
}

/// An attribute is found under its own name first, and else under a name that reads the same
/// as a label's.
pub proof fn law_a_name_is_found_as_it_is_written(
    labels: Seq<Pair>,
    name: Seq<char>,
    value: Seq<char>,
)
    requires
        lookup(labels, name) == Some(value),
    ensures
        lookup_relaxed(labels, name) == Some(value),
{
}

/// Of attributes with one key the last one counts, under the name that is stored; no other
/// name is touched. One without a key or a value is left out.
pub proof fn law_later_attributes_win(
    labels: Seq<Pair>,
    attributes: Seq<KeyView>,
    kv: KeyView,
    value: AnyView,
    text: Seq<char>,
    sanitize: bool,
    other: Seq<char>,
)
    requires
        sorted(labels),
        kv.key.len() > 0,
        kv.value == Some(value),
        any_text(value) == Some(text),
    ensures
        ({
            let name = if sanitize {
                sanitized(kv.key)
            } else {
                kv.key
            };
            let all = extended(labels, attributes.push(kv), sanitize);
            &&& lookup(all, name) == Some(text)
            &&& other != name ==> lookup(all, other) == lookup(
                extended(labels, attributes, sanitize),
                other,
            )
        }),
        extended(labels, attributes.push(KeyView { key: kv.key, value: None }), sanitize)
            == extended(labels, attributes, sanitize),
        extended(labels, attributes.push(KeyView { key: Seq::empty(), ..kv }), sanitize)
            == extended(labels, attributes, sanitize),
{
    let name = if sanitize {
        sanitized(kv.key)
    } else {
        kv.key
    };
    lemma_extended_sorted(labels, attributes, sanitize);
    assert(attributes.push(kv).drop_last() =~= attributes);
    let valueless = KeyView { key: kv.key, value: None };
    assert(attributes.push(valueless).drop_last() =~= attributes);
    let keyless = KeyView { key: Seq::empty(), ..kv };
    assert(attributes.push(keyless).drop_last() =~= attributes);
    law_insert_then_get(extended(labels, attributes, sanitize), name, text, other);
}

proof fn lemma_extended_sorted(labels: Seq<Pair>, attributes: Seq<KeyView>, sanitize: bool)
    requires
        sorted(labels),
    ensures
        sorted(extended(labels, attributes, sanitize)),
    decreases attributes.len(),
{
    if attributes.len() > 0 {
        let front = attributes.drop_last();
        let kv = attributes.last();
        lemma_extended_sorted(labels, front, sanitize);
        if let Some(value) = kv.value {
            if let Some(text) = any_text(value) {
                let name = if sanitize {
                    sanitized(kv.key)
                } else {
                    kv.key
                };
                law_insert_keeps_order(extended(labels, front, sanitize), name, text);
            }
        }
    }
}

/// A value is stored as its text: a text as it is, a truth value by its word, a number in
/// decimal.
pub proof fn law_a_value_is_stored_as_its_text(value: AnyView, text: Seq<char>, n: i64)
    ensures
        value.string_value == Some(text) ==> any_text(value) == Some(text),
        value.string_value is None && value.bool_value == Some(true) ==> any_text(value) == Some(
            "true"@,
        ),
        value.string_value is None && value.bool_value == Some(false) ==> any_text(value) == Some(
            "false"@,
        ),
        value.string_value is None && value.bool_value is None && value.int_value == Some(n)
            ==> any_text(value) == Some(signed_decimal(n as int)),
        value == AnyView::none() ==> any_text(value) is None,
{
}

/// A configured attribute that is not reserved becomes a label of the stream, under its name
/// as a label; no other name is touched.
pub proof fn law_configured_attributes_become_labels(
    labels: Seq<Pair>,
    inherited: Seq<Pair>,
    names: Seq<Seq<char>>,
    reserved: Reserved,
    name: Seq<char>,
)
    requires
        sorted(labels),
    ensures
        sorted(promoted(labels, inherited, names, reserved)),
        lookup(promoted(labels, inherited, names, reserved), name) == (if is_configured(names, name)
            && !reserved.holds(name) && lookup(inherited, name) is Some {
            lookup(inherited, name)
        } else {
            lookup(labels, name)
        }),
    decreases names.len(),
{
    if names.len() > 0 {
        let front = names.drop_last();
        let last = sanitized(names.last());
        law_configured_attributes_become_labels(labels, inherited, front, reserved, name);
        let sofar = promoted(labels, inherited, front, reserved);
        if let Some(value) = lookup(inherited, last) {
            law_insert_keeps_order(sofar, last, value);
            law_insert_then_get(sofar, last, value, name);
        }
        if is_configured(front, name) {
            let i = choose|i: int|
                0 <= i < front.len() && sanitized(#[trigger] front[i]) == name;
            assert(names[i] == front[i]);
        }
        if is_configured(names, name) {
            let i = choose|i: int|
                0 <= i < names.len() && sanitized(#[trigger] names[i]) == name;
            if i < front.len() {
                assert(front[i] == names[i]);
            }
        }
        assert(names[names.len() - 1] == names.last());
    }
}

/// Whether a name is among those that are configured, as a label.
pub open spec fn is_configured(names: Seq<Seq<char>>, name: Seq<char>) -> bool {
    exists|i: int| 0 <= i < names.len() && sanitized(#[trigger] names[i]) == name
}

/// A stream belongs to the application that its attributes name: `app`, or else the service.
pub proof fn law_an_app_is_named(inherited: Seq<Pair>, app: Seq<char>, service: Seq<char>)
    ensures
        lookup(inherited, "app"@) == Some(app) ==> app_named(inherited) == app,
        lookup(inherited, "app"@) is None && lookup(inherited, "service_name"@) == Some(service)
            ==> app_named(inherited) == service,
{
}

// ---------------------------------------------------------------------------
// Logs
// ---------------------------------------------------------------------------

/// A record happened when it says, or else when it was observed, or else when it arrived.
pub proof fn law_a_record_happened_when_it_says(raw: LogRecordView, ctx: ContextView)
    ensures
        time_of(raw.time_unix_nano) is Some ==> Some(log_time(raw, ctx)) == time_of(
            raw.time_unix_nano,
        ),
        time_of(raw.time_unix_nano) is None && time_of(raw.observed_time_unix_nano) is Some
            ==> Some(log_time(raw, ctx)) == time_of(raw.observed_time_unix_nano),
        time_of(raw.time_unix_nano) is None && time_of(raw.observed_time_unix_nano) is None
            ==> log_time(raw, ctx) == (ctx.now_nanos, TimeUnit::Nanos),
{
}

/// The numbers of a severity come by fours, each level above the one before; a number decides
/// before a word does.
pub proof fn law_severities_come_by_fours(raw: LogRecordView, level: int, n: i32)
    requires
        0 <= level < 6,
        4 * level < n <= 4 * level + 4,
        raw.severity_number == FlexEnumView::Number(n),
    ensures
        log_severity(raw) == (if level == 0 {
            Severity::Trace
        } else if level == 1 {
            Severity::Debug
        } else if level == 2 {
            Severity::Info
        } else if level == 3 {
            Severity::Warn
        } else if level == 4 {
            Severity::Error
        } else {
            Severity::Fatal
        }),
{
}

// ---------------------------------------------------------------------------
// Metrics
// ---------------------------------------------------------------------------

/// A data point is its double, or else its whole number as a double, or else zero.
pub proof fn law_a_point_has_one_value(point: PointView, bits: u64, n: i64)
    ensures
        point.as_double == Some(bits) ==> point_value(point) == bits,
        point.as_double is None && point.as_int == Some(n) && n >= 0 ==> point_value(point)
            == double_bits(n as nat),
        point.as_double is None && point.as_int is None ==> point_value(point) == 0,
{
}

/// A metric name keeps every character that may stand where it does; any other becomes `_`.
pub proof fn law_a_metric_name_keeps_what_it_can(s: Seq<char>)
    requires
        s.len() > 0,
    ensures
        prometheus_named(s).len() == s.len(),
        forall|i: int|
            0 <= i < s.len() ==> #[trigger] prometheus_named(s)[i] == (if crate::text::is_letter(
                s[i],
            ) || s[i] == '_' || s[i] == ':' || (i > 0 && is_digit(s[i])) {
                s[i]
            } else {
                '_'
            }),
{
}

/// The sum of bucket counts.
pub open spec fn counted(counts: Seq<Option<u64>>, n: nat) -> nat
    decreases n,
{
    if n == 0 || n > counts.len() {
        0
    } else {
        counted(counts, (n - 1) as nat) + (match counts[n - 1] {
            Some(count) => count as nat,
            None => 0,
        })
    }
}

proof fn lemma_counted(counts: Seq<Option<u64>>, n: nat)
    requires
        n <= counts.len(),
    ensures
        cumulative(counts, n) == (if counted(counts, n) > u64::MAX {
            u64::MAX as nat
        } else {
            counted(counts, n)
        }),
    decreases n,
{
    if n > 0 {
        lemma_counted(counts, (n - 1) as nat);
    }
}

/// A histogram becomes one series per bucket, and its sum and its count. A bucket's series is
/// named `_bucket` and has its upper bound under `le`, which is `+Inf` for the last one; its
/// value is how many were counted up to that bound. All other labels are the point's.
pub proof fn law_a_histogram_becomes_series(
    name: Seq<char>,
    base: Seq<Pair>,
    point: HistogramView,
    time: u64,
    i: int,
    other: Seq<char>,
)
    requires
        sorted(base),
        0 <= i < point.bucket_counts.len(),
        counted(point.bucket_counts, (i + 1) as nat) <= u64::MAX,
        other != "le"@,
        other != METRIC_NAME_LABEL@,
    ensures
        ({
            let sample = histogram_samples(name, base, point, time)[i];
            &&& sample.timestamp_nanos == time
            &&& sample.value == double_bits(counted(point.bucket_counts, (i + 1) as nat))
            &&& lookup(sample.series, METRIC_NAME_LABEL@) == Some(name + "_bucket"@)
            &&& lookup(sample.series, "le"@) == Some(
                if i < point.explicit_bounds.len() {
                    point.explicit_bounds[i]
                } else {
                    "+Inf"@
                },
            )
            &&& lookup(sample.series, other) == lookup(base, other)
        }),
{
    let sample = bucket_sample(name, base, point, i, time);
    assert(histogram_samples(name, base, point, time)[i] == sample);
    lemma_counted(point.bucket_counts, (i + 1) as nat);
    let named = inserted(base, METRIC_NAME_LABEL@, name + "_bucket"@);
    law_insert_keeps_order(base, METRIC_NAME_LABEL@, name + "_bucket"@);
    law_insert_then_get(base, METRIC_NAME_LABEL@, name + "_bucket"@, other);
    law_insert_then_get(base, METRIC_NAME_LABEL@, name + "_bucket"@, METRIC_NAME_LABEL@);
    let bound = crate::otlp_metrics::bucket_bound(point.explicit_bounds, i);
    reveal_strlit("le");
    reveal_strlit("__name__");
    assert("le"@.len() == 2 && METRIC_NAME_LABEL@.len() == 8);
    law_insert_then_get(named, "le"@, bound, other);
    law_insert_then_get(named, "le"@, bound, METRIC_NAME_LABEL@);
}

/// Behind its buckets stand a histogram's sum and its count, where it has them, under the
/// point's labels and a name of their own.
pub proof fn law_a_histogram_has_totals(
    name: Seq<char>,
    base: Seq<Pair>,
    point: HistogramView,
    time: u64,
    sum: u64,
    count: u64,
)
    requires
        sorted(base),
        point.sum == Some(sum),
        point.count == Some(count),
    ensures
        ({
            let all = histogram_samples(name, base, point, time);
            let n = point.bucket_counts.len() as int;
            &&& all.len() == n + 2
            &&& all[n].value == sum
            &&& all[n].timestamp_nanos == time
            &&& lookup(all[n].series, METRIC_NAME_LABEL@) == Some(name + "_sum"@)
            &&& all[n + 1].value == double_bits(count as nat)
            &&& all[n + 1].timestamp_nanos == time
            &&& lookup(all[n + 1].series, METRIC_NAME_LABEL@) == Some(name + "_count"@)
        }),
{
    law_insert_then_get(base, METRIC_NAME_LABEL@, name + "_sum"@, METRIC_NAME_LABEL@);
    law_insert_then_get(base, METRIC_NAME_LABEL@, name + "_count"@, METRIC_NAME_LABEL@);
}

/// A sample that is written is stored with its own value and time, milliseconds as
/// nanoseconds; a time outside 2001 to 2100 is refused.
pub proof fn law_a_written_sample_is_stored(series: Seq<Pair>, millis: i64, bits: u64)
    ensures
        978_307_200_000 <= millis < 4_102_444_800_000 ==> sample_of(series, (millis, bits)) == Ok::<
            SampleView,
            crate::decoded::RejectionView,
        >(
            SampleView {
                timestamp_nanos: (millis * 1_000_000) as u64,
                series,
                value: bits,
                kind: MetricKind::Unknown,
            },
        ),
        !(978_307_200_000 <= millis < 4_102_444_800_000) ==> match sample_of(
            series,
            (millis, bits),
        ) {
            Ok(_) => false,
            Err(rejection) => rejection.reason == RejectReason::InvalidTimestamp,
        },
{
}

/// A series that is written keeps all of its labels. Where it names no application, its
/// service, else its job, else the default is the one.
pub proof fn law_a_written_series_keeps_its_labels(
    labels: Seq<Pair>,
    default: Seq<char>,
    name: Seq<char>,
)
    requires
        sorted(labels),
    ensures
        name != "app"@ ==> lookup(with_app(labels, default), name) == lookup(labels, name),
        lookup(with_app(labels, default), "app"@) == (if lookup(labels, "app"@) is Some {
            lookup(labels, "app"@)
        } else if lookup(labels, "service_name"@) is Some {
            lookup(labels, "service_name"@)
        } else if lookup(labels, "job"@) is Some {
            lookup(labels, "job"@)
        } else {
            Some(default)
        }),
{
    law_insert_then_get(
        labels,
        APP_LABEL@,
        crate::remote_write::fallback_app(labels, default),
        name,
    );
}

} // verus!
