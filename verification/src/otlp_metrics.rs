//! OTLP metrics, converted to the series a Prometheus client asks for.
use vstd::prelude::*;

use crate::config::{IngestConfig, LimitsConfig};
use crate::decoded::{
    allowance, count, law_what_is_held_is_bounded, lemma_empty_tally, lemma_records_agree,
    lemma_records_are_bounded, lemma_records_in_turn, lemma_with_agrees, Decoded, RejectReason,
    Rejection, RejectionView, Tally,
};
use crate::double::{double_bits, double_of, negated};
use crate::labels::{inserted, is_metric_name, Labels, Pair, APP_LABEL, METRIC_NAME_LABEL};
use crate::logs::{field_time, resource_pairs, time_of, ContextView, TimeUnit};
use crate::otlp::{
    enum_number, extend_labels, extended, FlexEnum, FlexEnumView, FlexI64, FlexU64,
    InstrumentationScope, KeyValue, KeyView, Resource, ScopeView,
};
use crate::record::{MetricKind, MetricSample, SampleView};
use crate::streams::{
    app_name, app_named, check_labels, labels_rejected, promote, promoted, Reserved,
};
use crate::text::{
    chars_of, ends_with, has_suffix, is_digit, is_letter, option_view, same, string_of, trim,
    trimmed, views,
};

verus! {

// ---------------------------------------------------------------------------
// Wire types
// ---------------------------------------------------------------------------

#[derive(Debug)]
pub struct MetricsData {
    pub resource_metrics: Vec<ResourceMetrics>,
}

#[derive(Debug)]
pub struct ResourceMetrics {
    pub resource: Option<Resource>,
    pub scope_metrics: Vec<ScopeMetrics>,
}

#[derive(Debug)]
pub struct ScopeMetrics {
    pub scope: Option<InstrumentationScope>,
    pub metrics: Vec<MetricJson>,
}

#[derive(Debug)]
pub struct MetricJson {
    pub name: String,
    pub unit: String,
    pub gauge: Option<NumberData>,
    pub sum: Option<SumData>,
    pub histogram: Option<HistogramData>,
    /// Whether it holds an exponential histogram, which is not stored.
    pub exponential_histogram: bool,
    /// Whether it holds a summary, which is not stored.
    pub summary: bool,
}

#[derive(Debug)]
pub struct NumberData {
    pub data_points: Vec<NumberPoint>,
}

#[derive(Debug)]
pub struct SumData {
    pub data_points: Vec<NumberPoint>,
    pub aggregation_temporality: FlexEnum,
    pub is_monotonic: bool,
}

#[derive(Debug)]
pub struct NumberPoint {
    pub time_unix_nano: FlexU64,
    pub attributes: Vec<KeyValue>,
    /// The bits of a double.
    pub as_double: Option<u64>,
    pub as_int: FlexI64,
}

#[derive(Debug)]
pub struct HistogramData {
    pub data_points: Vec<HistogramPoint>,
    pub aggregation_temporality: FlexEnum,
}

#[derive(Debug)]
pub struct HistogramPoint {
    pub time_unix_nano: FlexU64,
    pub attributes: Vec<KeyValue>,
    pub count: FlexU64,
    /// The bits of a double.
    pub sum: Option<u64>,
    pub bucket_counts: Vec<FlexU64>,
    /// The buckets' upper bounds, as Prometheus writes them in `le`.
    pub explicit_bounds: Vec<String>,
}

pub struct ResourceMetricsView {
    pub resource: Option<Seq<KeyView>>,
    pub scope_metrics: Seq<ScopeMetricsView>,
}

pub struct ScopeMetricsView {
    pub scope: Option<ScopeView>,
    pub metrics: Seq<MetricView>,
}

pub struct MetricView {
    pub name: Seq<char>,
    pub unit: Seq<char>,
    pub gauge: Option<Seq<PointView>>,
    pub sum: Option<SumView>,
    pub histogram: Option<HistogramsView>,
    pub exponential_histogram: bool,
    pub summary: bool,
}

pub struct SumView {
    pub data_points: Seq<PointView>,
    pub temporality: FlexEnumView,
    pub is_monotonic: bool,
}

pub struct HistogramsView {
    pub data_points: Seq<HistogramView>,
    pub temporality: FlexEnumView,
}

pub struct PointView {
    pub time_unix_nano: Option<u64>,
    pub attributes: Seq<KeyView>,
    pub as_double: Option<u64>,
    pub as_int: Option<i64>,
}

pub struct HistogramView {
    pub time_unix_nano: Option<u64>,
    pub attributes: Seq<KeyView>,
    pub count: Option<u64>,
    pub sum: Option<u64>,
    pub bucket_counts: Seq<Option<u64>>,
    pub explicit_bounds: Seq<Seq<char>>,
}

impl View for MetricsData {
    type V = Seq<ResourceMetricsView>;

    open spec fn view(&self) -> Seq<ResourceMetricsView> {
        views(self.resource_metrics@)
    }
}

impl View for ResourceMetrics {
    type V = ResourceMetricsView;

    open spec fn view(&self) -> ResourceMetricsView {
        ResourceMetricsView {
            resource: option_view(self.resource),
            scope_metrics: views(self.scope_metrics@),
        }
    }
}

impl View for ScopeMetrics {
    type V = ScopeMetricsView;

    open spec fn view(&self) -> ScopeMetricsView {
        ScopeMetricsView { scope: option_view(self.scope), metrics: views(self.metrics@) }
    }
}

impl View for MetricJson {
    type V = MetricView;

    open spec fn view(&self) -> MetricView {
        MetricView {
            name: self.name@,
            unit: self.unit@,
            gauge: option_view(self.gauge),
            sum: option_view(self.sum),
            histogram: option_view(self.histogram),
            exponential_histogram: self.exponential_histogram,
            summary: self.summary,
        }
    }
}

impl View for NumberData {
    type V = Seq<PointView>;

    open spec fn view(&self) -> Seq<PointView> {
        views(self.data_points@)
    }
}

impl View for SumData {
    type V = SumView;

    open spec fn view(&self) -> SumView {
        SumView {
            data_points: views(self.data_points@),
            temporality: self.aggregation_temporality@,
            is_monotonic: self.is_monotonic,
        }
    }
}

impl View for NumberPoint {
    type V = PointView;

    open spec fn view(&self) -> PointView {
        PointView {
            time_unix_nano: self.time_unix_nano.value(),
            attributes: views(self.attributes@),
            as_double: self.as_double,
            as_int: self.as_int.value(),
        }
    }
}

impl View for HistogramData {
    type V = HistogramsView;

    open spec fn view(&self) -> HistogramsView {
        HistogramsView {
            data_points: views(self.data_points@),
            temporality: self.aggregation_temporality@,
        }
    }
}

/// The values of a list of counts.
pub open spec fn counts_view(counts: Seq<FlexU64>) -> Seq<Option<u64>> {
    counts.map_values(|count: FlexU64| count.value())
}

impl View for HistogramPoint {
    type V = HistogramView;

    open spec fn view(&self) -> HistogramView {
        HistogramView {
            time_unix_nano: self.time_unix_nano.value(),
            attributes: views(self.attributes@),
            count: self.count.value(),
            sum: self.sum,
            bucket_counts: counts_view(self.bucket_counts@),
            explicit_bounds: views(self.explicit_bounds@),
        }
    }
}

impl ResourceMetricsView {
    pub open spec fn none() -> ResourceMetricsView {
        ResourceMetricsView { resource: None, scope_metrics: Seq::empty() }
    }
}

impl ScopeMetricsView {
    pub open spec fn none() -> ScopeMetricsView {
        ScopeMetricsView { scope: None, metrics: Seq::empty() }
    }
}

impl MetricView {
    pub open spec fn none() -> MetricView {
        MetricView {
            name: Seq::empty(),
            unit: Seq::empty(),
            gauge: None,
            sum: None,
            histogram: None,
            exponential_histogram: false,
            summary: false,
        }
    }
}

impl SumView {
    pub open spec fn none() -> SumView {
        SumView {
            data_points: Seq::empty(),
            temporality: FlexEnumView::Absent,
            is_monotonic: false,
        }
    }
}

impl HistogramsView {
    pub open spec fn none() -> HistogramsView {
        HistogramsView { data_points: Seq::empty(), temporality: FlexEnumView::Absent }
    }
}

impl PointView {
    pub open spec fn none() -> PointView {
        PointView {
            time_unix_nano: None,
            attributes: Seq::empty(),
            as_double: None,
            as_int: None,
        }
    }
}

impl HistogramView {
    pub open spec fn none() -> HistogramView {
        HistogramView {
            time_unix_nano: None,
            attributes: Seq::empty(),
            count: None,
            sum: None,
            bucket_counts: Seq::empty(),
            explicit_bounds: Seq::empty(),
        }
    }
}

impl Default for MetricsData {
    fn default() -> (data: MetricsData)
        ensures
            data@ == Seq::<ResourceMetricsView>::empty(),
    {
        let data = MetricsData { resource_metrics: Vec::new() };
        assert(data@ =~= Seq::<ResourceMetricsView>::empty());
        data
    }
}

impl Default for ResourceMetrics {
    fn default() -> (metrics: ResourceMetrics)
        ensures
            metrics@ == ResourceMetricsView::none(),
    {
        let metrics = ResourceMetrics { resource: None, scope_metrics: Vec::new() };
        assert(metrics@.scope_metrics =~= Seq::<ScopeMetricsView>::empty());
        metrics
    }
}

impl Default for ScopeMetrics {
    fn default() -> (metrics: ScopeMetrics)
        ensures
            metrics@ == ScopeMetricsView::none(),
    {
        let metrics = ScopeMetrics { scope: None, metrics: Vec::new() };
        assert(metrics@.metrics =~= Seq::<MetricView>::empty());
        metrics
    }
}

impl Default for MetricJson {
    fn default() -> (metric: MetricJson)
        ensures
            metric@ == MetricView::none(),
    {
        let metric = MetricJson {
            name: String::new(),
            unit: String::new(),
            gauge: None,
            sum: None,
            histogram: None,
            exponential_histogram: false,
            summary: false,
        };
        assert(metric@.name =~= Seq::<char>::empty());
        assert(metric@.unit =~= Seq::<char>::empty());
        metric
    }
}

impl Default for SumData {
    fn default() -> (sum: SumData)
        ensures
            sum@ == SumView::none(),
    {
        let sum = SumData {
            data_points: Vec::new(),
            aggregation_temporality: FlexEnum::Absent,
            is_monotonic: false,
        };
        assert(sum@.data_points =~= Seq::<PointView>::empty());
        sum
    }
}

impl Default for HistogramData {
    fn default() -> (histogram: HistogramData)
        ensures
            histogram@ == HistogramsView::none(),
    {
        let histogram = HistogramData {
            data_points: Vec::new(),
            aggregation_temporality: FlexEnum::Absent,
        };
        assert(histogram@.data_points =~= Seq::<HistogramView>::empty());
        histogram
    }
}

impl Default for NumberPoint {
    fn default() -> (point: NumberPoint)
        ensures
            point@ == PointView::none(),
    {
        let point = NumberPoint {
            time_unix_nano: FlexU64::Absent,
            attributes: Vec::new(),
            as_double: None,
            as_int: FlexI64::Absent,
        };
        assert(point@.attributes =~= Seq::<KeyView>::empty());
        point
    }
}

impl Default for HistogramPoint {
    fn default() -> (point: HistogramPoint)
        ensures
            point@ == HistogramView::none(),
    {
        let point = HistogramPoint {
            time_unix_nano: FlexU64::Absent,
            attributes: Vec::new(),
            count: FlexU64::Absent,
            sum: None,
            bucket_counts: Vec::new(),
            explicit_bounds: Vec::new(),
        };
        assert(point@.attributes =~= Seq::<KeyView>::empty());
        assert(point@.bucket_counts =~= Seq::<Option<u64>>::empty());
        assert(point@.explicit_bounds =~= Seq::<Seq<char>>::empty());
        point
    }
}

/// The bits of a data point's value: its double, or else its whole number, or else zero.
pub open spec fn point_value(point: PointView) -> u64 {
    match point.as_double {
        Some(bits) => bits,
        None => match point.as_int {
            Some(n) => whole_bits(n),
            None => 0,
        },
    }
}

/// The bits of the double nearest to a whole number.
pub open spec fn whole_bits(n: i64) -> u64 {
    if n < 0 {
        negated(double_bits((-n) as nat))
    } else {
        double_bits(n as nat)
    }
}

fn whole_of(n: i64) -> (bits: u64)
    ensures
        bits == whole_bits(n),
{
    if n < 0 {
        negated(double_of((-(n + 1)) as u64 + 1))
    } else {
        double_of(n as u64)
    }
}

impl NumberPoint {
    /// The bits of the point's value.
    fn value(&self) -> (bits: u64)
        ensures
            bits == point_value(self@),
    {
        match self.as_double {
            Some(bits) => bits,
            None => match self.as_int.get() {
                Some(n) => whole_of(n),
                None => 0,
            },
        }
    }
}

/// The number of an aggregation temporality by its proto enum name.
pub open spec fn temporality_named(name: Seq<char>) -> Option<i32> {
    if name == "AGGREGATION_TEMPORALITY_UNSPECIFIED"@ {
        Some(0)
    } else if name == "AGGREGATION_TEMPORALITY_DELTA"@ {
        Some(1)
    } else if name == "AGGREGATION_TEMPORALITY_CUMULATIVE"@ {
        Some(2)
    } else {
        None
    }
}

fn temporality_by_name(name: &str) -> (n: Option<i32>)
    ensures
        n == temporality_named(name@),
{
    if same(name, "AGGREGATION_TEMPORALITY_UNSPECIFIED") {
        Some(0)
    } else if same(name, "AGGREGATION_TEMPORALITY_DELTA") {
        Some(1)
    } else if same(name, "AGGREGATION_TEMPORALITY_CUMULATIVE") {
        Some(2)
    } else {
        None
    }
}

/// Whether a sum or histogram counts from its last point rather than from its start.
pub open spec fn is_delta(temporality: FlexEnumView) -> bool {
    enum_number(temporality, |name: Seq<char>| temporality_named(name)) == Some(1i32)
}

fn says_delta(temporality: &FlexEnum) -> (r: bool)
    ensures
        r == is_delta(temporality@),
{
    match temporality.resolve(temporality_by_name) {
        Some(n) => n == 1,
        None => false,
    }
}

// ---------------------------------------------------------------------------
// Names
// ---------------------------------------------------------------------------

/// A character that may stand at place `i` of a metric name.
pub open spec fn name_char_at(c: char, i: int) -> bool {
    is_letter(c) || c == '_' || c == ':' || (i > 0 && is_digit(c))
}

/// A text as a metric name: every character that cannot stand where it does becomes `_`.
pub open spec fn prometheus_named(s: Seq<char>) -> Seq<char> {
    if s.len() == 0 {
        "_"@
    } else {
        Seq::new(
            s.len(),
            |i: int|
                if name_char_at(s[i], i) {
                    s[i]
                } else {
                    '_'
                },
        )
    }
}

/// Rewrites an OTLP metric name into a valid Prometheus name.
pub fn prometheus_name(otlp_name: &str) -> (name: String)
    ensures
        name@ == prometheus_named(otlp_name@),
{
    let chars: Vec<char> = chars_of(otlp_name);
    if chars.len() == 0 {
        return "_".to_owned();
    }
    let mut out: Vec<char> = Vec::new();
    let mut i: usize = 0;
    while i < chars.len()
        invariant
            i <= chars@.len(),
            chars@ == otlp_name@,
            out@.len() == i,
            forall|j: int| 0 <= j < i ==> out@[j] == prometheus_named(otlp_name@)[j],
        decreases chars@.len() - i,
    {
        let c: char = chars[i];
        let valid: bool = is_letter(c) || c == '_' || c == ':' || (i > 0 && is_digit(c));
        out.push(
            if valid {
                c
            } else {
                '_'
            },
        );
        i += 1;
    }
    assert(out@ =~= prometheus_named(otlp_name@));
    string_of(out.as_slice())
}

/// UCUM units, as Prometheus spells them in a metric name. Anything not listed is left
/// alone rather than guessed at.
pub open spec fn unit_word(unit: Seq<char>) -> Option<Seq<char>> {
    if unit == "d"@ {
        Some("days"@)
    } else if unit == "h"@ {
        Some("hours"@)
    } else if unit == "min"@ {
        Some("minutes"@)
    } else if unit == "s"@ {
        Some("seconds"@)
    } else if unit == "ms"@ {
        Some("milliseconds"@)
    } else if unit == "us"@ {
        Some("microseconds"@)
    } else if unit == "ns"@ {
        Some("nanoseconds"@)
    } else if unit == "By"@ {
        Some("bytes"@)
    } else if unit == "KiBy"@ {
        Some("kibibytes"@)
    } else if unit == "MiBy"@ {
        Some("mebibytes"@)
    } else if unit == "GiBy"@ {
        Some("gibibytes"@)
    } else if unit == "TiBy"@ {
        Some("tibibytes"@)
    } else if unit == "KBy"@ {
        Some("kilobytes"@)
    } else if unit == "MBy"@ {
        Some("megabytes"@)
    } else if unit == "GBy"@ {
        Some("gigabytes"@)
    } else if unit == "TBy"@ {
        Some("terabytes"@)
    } else if unit == "%"@ {
        Some("percent"@)
    } else if unit == "Cel"@ {
        Some("celsius"@)
    } else if unit == "Hz"@ {
        Some("hertz"@)
    } else if unit == "V"@ {
        Some("volts"@)
    } else if unit == "A"@ {
        Some("amperes"@)
    } else if unit == "J"@ {
        Some("joules"@)
    } else if unit == "W"@ {
        Some("watts"@)
    } else {
        None
    }
}

fn word_of(unit: &str) -> (word: Option<&'static str>)
    ensures
        unit_word(unit@) == (match word {
            Some(word) => Some(word@),
            None => None,
        }),
{
    if same(unit, "d") {
        Some("days")
    } else if same(unit, "h") {
        Some("hours")
    } else if same(unit, "min") {
        Some("minutes")
    } else if same(unit, "s") {
        Some("seconds")
    } else if same(unit, "ms") {
        Some("milliseconds")
    } else if same(unit, "us") {
        Some("microseconds")
    } else if same(unit, "ns") {
        Some("nanoseconds")
    } else if same(unit, "By") {
        Some("bytes")
    } else if same(unit, "KiBy") {
        Some("kibibytes")
    } else if same(unit, "MiBy") {
        Some("mebibytes")
    } else if same(unit, "GiBy") {
        Some("gibibytes")
    } else if same(unit, "TiBy") {
        Some("tibibytes")
    } else if same(unit, "KBy") {
        Some("kilobytes")
    } else if same(unit, "MBy") {
        Some("megabytes")
    } else if same(unit, "GBy") {
        Some("gigabytes")
    } else if same(unit, "TBy") {
        Some("terabytes")
    } else if same(unit, "%") {
        Some("percent")
    } else if same(unit, "Cel") {
        Some("celsius")
    } else if same(unit, "Hz") {
        Some("hertz")
    } else if same(unit, "V") {
        Some("volts")
    } else if same(unit, "A") {
        Some("amperes")
    } else if same(unit, "J") {
        Some("joules")
    } else if same(unit, "W") {
        Some("watts")
    } else {
        None
    }
}

/// Whether a name carries a unit already: at its end, or in front of a `_total`.
pub open spec fn carries(name: Seq<char>, word: Seq<char>) -> bool {
    ends_with(name, word) || ends_with(name, word + "_total"@)
}

/// The name a Prometheus client asks for: with the unit spelled out, and with `_total`
/// behind it where it counts. A unit that the name carries already is not repeated.
pub open spec fn metric_named(otlp_name: Seq<char>, unit: Seq<char>, counter: bool) -> Seq<char> {
    let name = prometheus_named(otlp_name);
    let with_unit = match unit_word(trim(unit)) {
        Some(word) => if carries(name, word) {
            name
        } else {
            name + ("_"@ + word)
        },
        None => name,
    };
    if counter && !ends_with(with_unit, "_total"@) {
        with_unit + "_total"@
    } else {
        with_unit
    }
}

/// The name a Prometheus client asks for.
pub fn prometheus_metric_name(otlp_name: &str, unit: &str, counter: bool) -> (name: String)
    ensures
        name@ == metric_named(otlp_name@, unit@, counter),
{
    let mut name: String = prometheus_name(otlp_name);
    match word_of(trimmed(unit).as_str()) {
        Some(word) => {
            let mut counted: String = word.to_owned();
            counted.append("_total");
            if !has_suffix(name.as_str(), word) && !has_suffix(name.as_str(), counted.as_str()) {
                let ghost start = name@;
                name.append("_");
                name.append(word);
                assert(name@ =~= start + ("_"@ + word@));
            }
        },
        None => {},
    }
    if counter && !has_suffix(name.as_str(), "_total") {
        name.append("_total");
    }
    name
}

// ---------------------------------------------------------------------------
// What a metric becomes
// ---------------------------------------------------------------------------

/// Everything a metrics decode needs beyond the payload.
#[derive(Debug, Clone, Copy)]
pub struct MetricContext<'a> {
    pub limits: &'a LimitsConfig,
    pub ingest: &'a IngestConfig,
    pub now_nanos: u64,
}

impl<'a> View for MetricContext<'a> {
    type V = ContextView;

    open spec fn view(&self) -> ContextView {
        ContextView { limits: *self.limits, ingest: self.ingest@, now_nanos: self.now_nanos }
    }
}

/// When a data point was taken: its own time, or else arrival.
pub open spec fn point_time(raw: Option<u64>, ctx: ContextView) -> u64 {
    match time_of(raw) {
        Some((nanos, _)) => nanos,
        None => ctx.now_nanos,
    }
}

/// Whether a data point's time was sent in the wrong unit.
pub open spec fn point_rescaled(raw: Option<u64>) -> bool {
    match time_of(raw) {
        Some((_, unit)) => unit != TimeUnit::Nanos,
        None => false,
    }
}

/// The labels that every series of a metric has.
pub open spec fn base_labels(
    name: Seq<char>,
    resource: Seq<Pair>,
    app: Seq<char>,
    ctx: ContextView,
) -> Seq<Pair> {
    promoted(
        inserted(inserted(Seq::empty(), METRIC_NAME_LABEL@, name), APP_LABEL@, app),
        resource,
        ctx.ingest.stream_labels,
        Reserved { app: false, level: false },
    )
}

/// The labels of a data point's series.
pub open spec fn point_labels(
    name: Seq<char>,
    attributes: Seq<KeyView>,
    resource: Seq<Pair>,
    app: Seq<char>,
    ctx: ContextView,
) -> Seq<Pair> {
    extended(base_labels(name, resource, app, ctx), attributes, true)
}

/// A request after one more number.
pub open spec fn with_number(
    tally: Tally<SampleView>,
    name: Seq<char>,
    kind: MetricKind,
    point: PointView,
    resource: Seq<Pair>,
    app: Seq<char>,
    ctx: ContextView,
) -> Tally<SampleView> {
    let series = point_labels(name, point.attributes, resource, app, ctx);
    tally.rescaled_if(point_rescaled(point.time_unix_nano)).with(
        match labels_rejected(series, "labels"@, ctx.limits) {
            Some(rejection) => Err(rejection),
            None => Ok(
                SampleView {
                    timestamp_nanos: point_time(point.time_unix_nano, ctx),
                    series,
                    value: point_value(point),
                    kind,
                },
            ),
        },
    )
}

/// The running total of the first `n` bucket counts, held to what a counter can say. A
/// count that is absent counts nothing.
pub open spec fn cumulative(counts: Seq<Option<u64>>, n: nat) -> u64
    decreases n,
{
    if n == 0 || n > counts.len() {
        0
    } else {
        let more = match counts[n - 1] {
            Some(count) => count,
            None => 0,
        };
        let sofar = cumulative(counts, (n - 1) as nat);
        if sofar + more > u64::MAX {
            u64::MAX
        } else {
            (sofar + more) as u64
        }
    }
}

/// The upper bound of bucket `i`. There is one bucket more than there are bounds: the
/// last takes everything above them.
pub open spec fn bucket_bound(bounds: Seq<Seq<char>>, i: int) -> Seq<char> {
    if 0 <= i < bounds.len() {
        bounds[i]
    } else {
        "+Inf"@
    }
}

/// The sample of bucket `i`.
pub open spec fn bucket_sample(
    name: Seq<char>,
    base: Seq<Pair>,
    point: HistogramView,
    i: int,
    time: u64,
) -> SampleView {
    SampleView {
        timestamp_nanos: time,
        series: inserted(
            inserted(base, METRIC_NAME_LABEL@, name + "_bucket"@),
            "le"@,
            bucket_bound(point.explicit_bounds, i),
        ),
        value: double_bits(cumulative(point.bucket_counts, (i + 1) as nat) as nat),
        kind: MetricKind::Histogram,
    }
}

/// The samples of the first `n` buckets.
pub open spec fn bucket_samples(
    name: Seq<char>,
    base: Seq<Pair>,
    point: HistogramView,
    n: nat,
    time: u64,
) -> Seq<SampleView> {
    Seq::new(n, |i: int| bucket_sample(name, base, point, i, time))
}

/// The sample of a total of a histogram: its sum or its count.
pub open spec fn total_sample(
    name: Seq<char>,
    base: Seq<Pair>,
    bits: Option<u64>,
    time: u64,
) -> Seq<SampleView> {
    match bits {
        Some(bits) => seq![
            SampleView {
                timestamp_nanos: time,
                series: inserted(base, METRIC_NAME_LABEL@, name),
                value: bits,
                kind: MetricKind::Counter,
            },
        ],
        None => Seq::empty(),
    }
}

pub open spec fn count_bits(count: Option<u64>) -> Option<u64> {
    match count {
        Some(n) => Some(double_bits(n as nat)),
        None => None,
    }
}

/// The series a histogram becomes: `_bucket` with running totals, `_sum` and `_count`.
pub open spec fn histogram_samples(
    name: Seq<char>,
    base: Seq<Pair>,
    point: HistogramView,
    time: u64,
) -> Seq<SampleView> {
    bucket_samples(name, base, point, point.bucket_counts.len(), time) + total_sample(
        name + "_sum"@,
        base,
        point.sum,
        time,
    ) + total_sample(name + "_count"@, base, count_bits(point.count), time)
}

/// A request after one more histogram.
pub open spec fn with_histogram(
    tally: Tally<SampleView>,
    name: Seq<char>,
    point: HistogramView,
    resource: Seq<Pair>,
    app: Seq<char>,
    ctx: ContextView,
) -> Tally<SampleView> {
    let base = point_labels(name, point.attributes, resource, app, ctx);
    let timed = tally.rescaled_if(point_rescaled(point.time_unix_nano));
    match labels_rejected(base, "labels"@, ctx.limits) {
        Some(rejection) => timed.with(Err(rejection)),
        None => timed.with_records(
            histogram_samples(name, base, point, point_time(point.time_unix_nano, ctx)),
        ),
    }
}

/// A request after the first `n` numbers of a metric.
pub open spec fn numbers_tally(
    tally: Tally<SampleView>,
    name: Seq<char>,
    kind: MetricKind,
    points: Seq<PointView>,
    n: nat,
    resource: Seq<Pair>,
    app: Seq<char>,
    ctx: ContextView,
) -> Tally<SampleView>
    decreases n,
{
    if n == 0 || n > points.len() {
        tally
    } else {
        with_number(
            numbers_tally(tally, name, kind, points, (n - 1) as nat, resource, app, ctx),
            name,
            kind,
            points[n - 1],
            resource,
            app,
            ctx,
        )
    }
}

/// A request after the first `n` histograms of a metric.
pub open spec fn histograms_tally(
    tally: Tally<SampleView>,
    name: Seq<char>,
    points: Seq<HistogramView>,
    n: nat,
    resource: Seq<Pair>,
    app: Seq<char>,
    ctx: ContextView,
) -> Tally<SampleView>
    decreases n,
{
    if n == 0 || n > points.len() {
        tally
    } else {
        with_histogram(
            histograms_tally(tally, name, points, (n - 1) as nat, resource, app, ctx),
            name,
            points[n - 1],
            resource,
            app,
            ctx,
        )
    }
}

/// The refusal of what counts from its last point. Stored as if it counted from its start
/// it would read as a counter that resets at every point.
pub open spec fn delta_refused(name: Seq<char>) -> RejectionView {
    RejectionView {
        reason: RejectReason::DeltaTemporality,
        detail: "metric `"@ + name + "` has delta temporality; send it as cumulative"@,
    }
}

/// The refusal of a kind of metric that is not stored.
pub open spec fn unsupported(name: Seq<char>, what: Seq<char>) -> RejectionView {
    RejectionView {
        reason: RejectReason::UnsupportedMetricType,
        detail: "metric `"@ + name + "` is "@ + what + ", which is not stored"@,
    }
}

/// A request after the sum of a metric. Only a monotonic sum is a counter, and only a
/// counter is named `_total`.
pub open spec fn with_sum(
    tally: Tally<SampleView>,
    metric: MetricView,
    resource: Seq<Pair>,
    app: Seq<char>,
    ctx: ContextView,
) -> Tally<SampleView> {
    match metric.sum {
        Some(sum) => if is_delta(sum.temporality) {
            tally.with(Err(delta_refused(metric.name)))
        } else {
            numbers_tally(
                tally,
                metric_named(metric.name, metric.unit, sum.is_monotonic),
                if sum.is_monotonic {
                    MetricKind::Counter
                } else {
                    MetricKind::Gauge
                },
                sum.data_points,
                sum.data_points.len(),
                resource,
                app,
                ctx,
            )
        },
        None => tally,
    }
}

/// A request after the histograms of a metric.
pub open spec fn with_histograms(
    tally: Tally<SampleView>,
    metric: MetricView,
    resource: Seq<Pair>,
    app: Seq<char>,
    ctx: ContextView,
) -> Tally<SampleView> {
    match metric.histogram {
        Some(histogram) => if is_delta(histogram.temporality) {
            tally.with(Err(delta_refused(metric.name)))
        } else {
            histograms_tally(
                tally,
                metric_named(metric.name, metric.unit, false),
                histogram.data_points,
                histogram.data_points.len(),
                resource,
                app,
                ctx,
            )
        },
        None => tally,
    }
}

/// A request after what a metric holds that is not stored.
pub open spec fn with_unsupported(tally: Tally<SampleView>, metric: MetricView) -> Tally<
    SampleView,
> {
    let first = if metric.exponential_histogram {
        tally.with(Err(unsupported(metric.name, "an exponential histogram"@)))
    } else {
        tally
    };
    if metric.summary {
        first.with(Err(unsupported(metric.name, "a summary"@)))
    } else {
        first
    }
}

/// A request after one more metric: its gauge, its sum, its histogram and what is not
/// stored.
pub open spec fn with_metric(
    tally: Tally<SampleView>,
    metric: MetricView,
    resource: Seq<Pair>,
    app: Seq<char>,
    ctx: ContextView,
) -> Tally<SampleView> {
    if trim(metric.name).len() == 0 {
        tally.with(
            Err(
                RejectionView {
                    reason: RejectReason::MissingMetricName,
                    detail: "metric has no name"@,
                },
            ),
        )
    } else {
        let gauged = match metric.gauge {
            Some(points) => numbers_tally(
                tally,
                metric_named(metric.name, metric.unit, false),
                MetricKind::Gauge,
                points,
                points.len(),
                resource,
                app,
                ctx,
            ),
            None => tally,
        };
        with_unsupported(
            with_histograms(
                with_sum(gauged, metric, resource, app, ctx),
                metric,
                resource,
                app,
                ctx,
            ),
            metric,
        )
    }
}

/// A request after the first `n` metrics of a scope.
pub open spec fn scope_tally(
    tally: Tally<SampleView>,
    metrics: Seq<MetricView>,
    n: nat,
    resource: Seq<Pair>,
    ctx: ContextView,
) -> Tally<SampleView>
    decreases n,
{
    if n == 0 || n > metrics.len() {
        tally
    } else {
        with_metric(
            scope_tally(tally, metrics, (n - 1) as nat, resource, ctx),
            metrics[n - 1],
            resource,
            app_named(resource),
            ctx,
        )
    }
}

/// A request after the first `n` scopes of a resource.
pub open spec fn resource_tally(
    tally: Tally<SampleView>,
    scopes: Seq<ScopeMetricsView>,
    n: nat,
    resource: Seq<Pair>,
    ctx: ContextView,
) -> Tally<SampleView>
    decreases n,
{
    if n == 0 || n > scopes.len() {
        tally
    } else {
        scope_tally(
            resource_tally(tally, scopes, (n - 1) as nat, resource, ctx),
            scopes[n - 1].metrics,
            scopes[n - 1].metrics.len(),
            resource,
            ctx,
        )
    }
}

/// A request that may hold `budget` bytes after its first `n` resources.
pub open spec fn data_tally(
    data: Seq<ResourceMetricsView>,
    n: nat,
    ctx: ContextView,
    budget: usize,
) -> Tally<SampleView>
    decreases n,
{
    if n == 0 || n > data.len() {
        Tally::none(budget)
    } else {
        resource_tally(
            data_tally(data, (n - 1) as nat, ctx, budget),
            data[n - 1].scope_metrics,
            data[n - 1].scope_metrics.len(),
            resource_pairs(data[n - 1].resource, true),
            ctx,
        )
    }
}

// ---------------------------------------------------------------------------
// Conversion
// ---------------------------------------------------------------------------

/// Converts an already-parsed payload.
pub fn convert_data(data: &MetricsData, ctx: MetricContext<'_>) -> (decoded: Decoded<MetricSample>)
    ensures
        decoded.tally() == data_tally(data@, data@.len(), ctx@, allowance(ctx@.limits)),
        decoded.tally().agrees(data_tally(data@, data@.len(), ctx@, usize::MAX)),
{
    let mut decoded: Decoded<MetricSample> = Decoded::bounded(ctx.limits);
    proof {
        lemma_empty_tally(decoded);
    }
    let ghost all = data@;
    let mut i: usize = 0;
    while i < data.resource_metrics.len()
        invariant
            i <= data.resource_metrics@.len(),
            all == views(data.resource_metrics@),
            decoded.tally() == data_tally(all, i as nat, ctx@, allowance(ctx@.limits)),
        decreases data.resource_metrics@.len() - i,
    {
        let resource_metrics: &ResourceMetrics = &data.resource_metrics[i];
        assert(all[i as int] == data.resource_metrics@[i as int]@);
        let mut labels: Labels = Labels::new();
        match &resource_metrics.resource {
            Some(resource) => {
                extend_labels(&mut labels, &resource.attributes);
            },
            None => {},
        }
        convert_resource(&resource_metrics.scope_metrics, &labels, ctx, &mut decoded);
        i += 1;
    }
    proof {
        lemma_data_agrees(all, all.len(), ctx@, allowance(ctx@.limits));
    }
    decoded
}

fn convert_resource(
    scopes: &Vec<ScopeMetrics>,
    resource: &Labels,
    ctx: MetricContext<'_>,
    decoded: &mut Decoded<MetricSample>,
)
    ensures
        final(decoded).tally() == resource_tally(
            old(decoded).tally(),
            views(scopes@),
            scopes@.len(),
            resource@,
            ctx@,
        ),
{
    let ghost start = decoded.tally();
    let ghost all = views(scopes@);
    let mut i: usize = 0;
    while i < scopes.len()
        invariant
            i <= scopes@.len(),
            all == views(scopes@),
            decoded.tally() == resource_tally(start, all, i as nat, resource@, ctx@),
        decreases scopes@.len() - i,
    {
        assert(all[i as int] == scopes@[i as int]@);
        convert_scope(&scopes[i].metrics, resource, ctx, decoded);
        i += 1;
    }
}

fn convert_scope(
    metrics: &Vec<MetricJson>,
    resource: &Labels,
    ctx: MetricContext<'_>,
    decoded: &mut Decoded<MetricSample>,
)
    ensures
        final(decoded).tally() == scope_tally(
            old(decoded).tally(),
            views(metrics@),
            metrics@.len(),
            resource@,
            ctx@,
        ),
{
    let ghost start = decoded.tally();
    let ghost all = views(metrics@);
    let app: &str = app_name(resource);
    let mut i: usize = 0;
    while i < metrics.len()
        invariant
            i <= metrics@.len(),
            all == views(metrics@),
            app@ == app_named(resource@),
            decoded.tally() == scope_tally(start, all, i as nat, resource@, ctx@),
        decreases metrics@.len() - i,
    {
        assert(all[i as int] == metrics@[i as int]@);
        convert_metric(&metrics[i], resource, app, ctx, decoded);
        i += 1;
    }
}

fn convert_metric(
    metric: &MetricJson,
    resource: &Labels,
    app: &str,
    ctx: MetricContext<'_>,
    decoded: &mut Decoded<MetricSample>,
)
    ensures
        final(decoded).tally() == with_metric(
            old(decoded).tally(),
            metric@,
            resource@,
            app@,
            ctx@,
        ),
{
    if trimmed(metric.name.as_str()).as_str().is_empty() {
        decoded.push(
            Err(
                Rejection::new(RejectReason::MissingMetricName, "metric has no name".to_owned()),
            ),
        );
        return;
    }
    match &metric.gauge {
        Some(gauge) => {
            let name: String = prometheus_metric_name(
                metric.name.as_str(),
                metric.unit.as_str(),
                false,
            );
            push_numbers(
                name.as_str(),
                MetricKind::Gauge,
                &gauge.data_points,
                resource,
                app,
                ctx,
                decoded,
            );
        },
        None => {},
    }
    match &metric.sum {
        Some(sum) => if says_delta(&sum.aggregation_temporality) {
            decoded.push(Err(refuse_delta(metric.name.as_str())));
        } else {
            let kind: MetricKind = if sum.is_monotonic {
                MetricKind::Counter
            } else {
                MetricKind::Gauge
            };
            let name: String = prometheus_metric_name(
                metric.name.as_str(),
                metric.unit.as_str(),
                sum.is_monotonic,
            );
            push_numbers(name.as_str(), kind, &sum.data_points, resource, app, ctx, decoded);
        },
        None => {},
    }
    match &metric.histogram {
        Some(histogram) => if says_delta(&histogram.aggregation_temporality) {
            decoded.push(Err(refuse_delta(metric.name.as_str())));
        } else {
            let name: String = prometheus_metric_name(
                metric.name.as_str(),
                metric.unit.as_str(),
                false,
            );
            push_histograms(name.as_str(), &histogram.data_points, resource, app, ctx, decoded);
        },
        None => {},
    }
    if metric.exponential_histogram {
        decoded.push(
            Err(refuse_unsupported(metric.name.as_str(), "an exponential histogram")),
        );
    }
    if metric.summary {
        decoded.push(Err(refuse_unsupported(metric.name.as_str(), "a summary")));
    }
}

fn refuse_delta(name: &str) -> (rejection: Rejection)
    ensures
        rejection@ == delta_refused(name@),
{
    let mut detail: String = "metric `".to_owned();
    detail.append(name);
    detail.append("` has delta temporality; send it as cumulative");
    Rejection::new(RejectReason::DeltaTemporality, detail)
}

fn refuse_unsupported(name: &str, what: &str) -> (rejection: Rejection)
    ensures
        rejection@ == unsupported(name@, what@),
{
    let mut detail: String = "metric `".to_owned();
    detail.append(name);
    detail.append("` is ");
    detail.append(what);
    detail.append(", which is not stored");
    Rejection::new(RejectReason::UnsupportedMetricType, detail)
}

fn push_numbers(
    name: &str,
    kind: MetricKind,
    points: &Vec<NumberPoint>,
    resource: &Labels,
    app: &str,
    ctx: MetricContext<'_>,
    decoded: &mut Decoded<MetricSample>,
)
    ensures
        final(decoded).tally() == numbers_tally(
            old(decoded).tally(),
            name@,
            kind,
            views(points@),
            points@.len(),
            resource@,
            app@,
            ctx@,
        ),
{
    let ghost start = decoded.tally();
    let ghost all = views(points@);
    let mut i: usize = 0;
    while i < points.len()
        invariant
            i <= points@.len(),
            all == views(points@),
            decoded.tally() == numbers_tally(
                start,
                name@,
                kind,
                all,
                i as nat,
                resource@,
                app@,
                ctx@,
            ),
        decreases points@.len() - i,
    {
        assert(all[i as int] == points@[i as int]@);
        push_number(name, kind, &points[i], resource, app, ctx, decoded);
        i += 1;
    }
}

fn push_histograms(
    name: &str,
    points: &Vec<HistogramPoint>,
    resource: &Labels,
    app: &str,
    ctx: MetricContext<'_>,
    decoded: &mut Decoded<MetricSample>,
)
    ensures
        final(decoded).tally() == histograms_tally(
            old(decoded).tally(),
            name@,
            views(points@),
            points@.len(),
            resource@,
            app@,
            ctx@,
        ),
{
    let ghost start = decoded.tally();
    let ghost all = views(points@);
    let mut i: usize = 0;
    while i < points.len()
        invariant
            i <= points@.len(),
            all == views(points@),
            decoded.tally() == histograms_tally(
                start,
                name@,
                all,
                i as nat,
                resource@,
                app@,
                ctx@,
            ),
        decreases points@.len() - i,
    {
        assert(all[i as int] == points@[i as int]@);
        push_histogram(name, &points[i], resource, app, ctx, decoded);
        i += 1;
    }
}

/// A data point's time, or else arrival.
fn resolve_time(raw: FlexU64, ctx: MetricContext<'_>, decoded: &mut Decoded<MetricSample>) -> (nanos:
    u64)
    ensures
        nanos == point_time(raw.value(), ctx@),
        final(decoded).tally() == old(decoded).tally().rescaled_if(point_rescaled(raw.value())),
{
    match field_time(raw) {
        Some(time) => {
            if time.1 != TimeUnit::Nanos {
                decoded.rescaled_timestamps = count(decoded.rescaled_timestamps);
            }
            time.0
        },
        None => ctx.now_nanos,
    }
}

fn base_series(name: &str, resource: &Labels, app: &str, ctx: MetricContext<'_>) -> (series: Labels)
    ensures
        series@ == base_labels(name@, resource@, app@, ctx@),
{
    let mut series: Labels = Labels::new();
    series.insert(METRIC_NAME_LABEL, name);
    series.insert(APP_LABEL, app);
    promote(
        &mut series,
        resource,
        &ctx.ingest.stream_labels,
        Reserved { app: false, level: false },
    );
    series
}

fn push_number(
    name: &str,
    kind: MetricKind,
    point: &NumberPoint,
    resource: &Labels,
    app: &str,
    ctx: MetricContext<'_>,
    decoded: &mut Decoded<MetricSample>,
)
    ensures
        final(decoded).tally() == with_number(
            old(decoded).tally(),
            name@,
            kind,
            point@,
            resource@,
            app@,
            ctx@,
        ),
{
    let timestamp_nanos: u64 = resolve_time(point.time_unix_nano, ctx, decoded);
    let mut series: Labels = base_series(name, resource, app, ctx);
    extend_labels(&mut series, &point.attributes);
    match check_labels(&series, "labels", ctx.limits) {
        Some(rejection) => decoded.push(Err(rejection)),
        None => {
            let value: u64 = point.value();
            decoded.push(Ok(MetricSample { timestamp_nanos, series, value, kind }))
        },
    }
}

fn named_series(base: &Labels, name: &str, suffix: &str) -> (series: Labels)
    ensures
        series@ == inserted(base@, METRIC_NAME_LABEL@, name@ + suffix@),
{
    let mut full: String = name.to_owned();
    full.append(suffix);
    let mut series: Labels = base.clone();
    series.insert(METRIC_NAME_LABEL, full.as_str());
    series
}

/// Adds the sample of one of a histogram's totals.
fn push_total(
    name: &str,
    suffix: &str,
    base: &Labels,
    bits: Option<u64>,
    timestamp_nanos: u64,
    decoded: &mut Decoded<MetricSample>,
)
    ensures
        final(decoded).tally() == old(decoded).tally().with_records(
            total_sample(name@ + suffix@, base@, bits, timestamp_nanos),
        ),
{
    let ghost start = decoded.tally();
    match bits {
        Some(value) => {
            let series: Labels = named_series(base, name, suffix);
            let sample: MetricSample = MetricSample {
                timestamp_nanos,
                series,
                value,
                kind: MetricKind::Counter,
            };
            decoded.push(Ok(sample));
            proof {
                let own = seq![sample@];
                assert(own.drop_last() =~= Seq::<SampleView>::empty());
                assert(start.with_records(own.drop_last()) == start);
                assert(own.last() == sample@);
            }
        },
        None => {
            assert(start.with_records(Seq::<SampleView>::empty()) == start);
        },
    }
}

/// Expands a histogram into the `_bucket`, `_sum` and `_count` series.
fn push_histogram(
    name: &str,
    point: &HistogramPoint,
    resource: &Labels,
    app: &str,
    ctx: MetricContext<'_>,
    decoded: &mut Decoded<MetricSample>,
)
    ensures
        final(decoded).tally() == with_histogram(
            old(decoded).tally(),
            name@,
            point@,
            resource@,
            app@,
            ctx@,
        ),
{
    let timestamp_nanos: u64 = resolve_time(point.time_unix_nano, ctx, decoded);
    let ghost timed = decoded.tally();
    let mut base: Labels = base_series(name, resource, app, ctx);
    extend_labels(&mut base, &point.attributes);
    match check_labels(&base, "labels", ctx.limits) {
        Some(rejection) => {
            decoded.push(Err(rejection));
            return;
        },
        None => {},
    }
    let ghost whole = point@;
    let mut total: u64 = 0;
    let mut i: usize = 0;
    assert(bucket_samples(name@, base@, whole, 0, timestamp_nanos).len() == 0);
    while i < point.bucket_counts.len()
        invariant
            i <= point.bucket_counts@.len(),
            whole == point@,
            total == cumulative(whole.bucket_counts, i as nat),
            decoded.tally() == timed.with_records(
                bucket_samples(name@, base@, whole, i as nat, timestamp_nanos),
            ),
        decreases point.bucket_counts@.len() - i,
    {
        let more: u64 = match point.bucket_counts[i].get() {
            Some(n) => n,
            None => 0,
        };
        assert(whole.bucket_counts[i as int] == point.bucket_counts@[i as int].value());
        total = total.saturating_add(more);
        let bound: &str = if i < point.explicit_bounds.len() {
            assert(whole.explicit_bounds[i as int] == point.explicit_bounds@[i as int]@);
            point.explicit_bounds[i].as_str()
        } else {
            "+Inf"
        };
        let mut series: Labels = named_series(&base, name, "_bucket");
        series.insert("le", bound);
        let sample: MetricSample = MetricSample {
            timestamp_nanos,
            series,
            value: double_of(total),
            kind: MetricKind::Histogram,
        };
        decoded.push(Ok(sample));
        proof {
            let done = bucket_samples(name@, base@, whole, i as nat, timestamp_nanos);
            assert(sample@ == bucket_sample(name@, base@, whole, i as int, timestamp_nanos));
            let next = bucket_samples(name@, base@, whole, (i + 1) as nat, timestamp_nanos);
            assert(next.drop_last() =~= done);
            assert(next.last() == sample@);
        }
        i += 1;
    }
    let counted: Option<u64> = match point.count.get() {
        Some(n) => Some(double_of(n)),
        None => None,
    };
    push_total(name, "_sum", &base, point.sum, timestamp_nanos, decoded);
    push_total(name, "_count", &base, counted, timestamp_nanos, decoded);
    proof {
        let buckets = bucket_samples(
            name@,
            base@,
            whole,
            whole.bucket_counts.len(),
            timestamp_nanos,
        );
        let sums = total_sample(name@ + "_sum"@, base@, whole.sum, timestamp_nanos);
        let counts = total_sample(
            name@ + "_count"@,
            base@,
            count_bits(whole.count),
            timestamp_nanos,
        );
        lemma_records_in_turn(timed, buckets, sums);
        lemma_records_in_turn(timed, buckets + sums, counts);
    }
}

// ---------------------------------------------------------------------------
// Laws
// ---------------------------------------------------------------------------

/// Every name becomes a valid metric name, and a valid one stays as it is.
pub proof fn law_names_become_valid(s: Seq<char>)
    ensures
        is_metric_name(prometheus_named(s)),
        is_metric_name(s) ==> prometheus_named(s) == s,
{
    reveal_strlit("_");
    let t = prometheus_named(s);
    assert forall|i: int| 0 <= i < t.len() implies crate::labels::is_metric_char(#[trigger] t[i]) by {
    }
    if is_metric_name(s) {
        assert forall|i: int| 0 <= i < s.len() implies s[i] == t[i] by {
            assert(crate::labels::is_metric_char(s[i]));
        }
        assert(t =~= s);
    }
}

proof fn lemma_unit_words(unit: Seq<char>)
    ensures
        match unit_word(unit) {
            Some(word) => word.len() > 0 && (forall|i: int|
                0 <= i < word.len() ==> crate::text::is_letter(#[trigger] word[i])),
            None => true,
        },
{
    reveal_strlit("days");
    reveal_strlit("hours");
    reveal_strlit("minutes");
    reveal_strlit("seconds");
    reveal_strlit("milliseconds");
    reveal_strlit("microseconds");
    reveal_strlit("nanoseconds");
    reveal_strlit("bytes");
    reveal_strlit("kibibytes");
    reveal_strlit("mebibytes");
    reveal_strlit("gibibytes");
    reveal_strlit("tibibytes");
    reveal_strlit("kilobytes");
    reveal_strlit("megabytes");
    reveal_strlit("gigabytes");
    reveal_strlit("terabytes");
    reveal_strlit("percent");
    reveal_strlit("celsius");
    reveal_strlit("hertz");
    reveal_strlit("volts");
    reveal_strlit("amperes");
    reveal_strlit("joules");
    reveal_strlit("watts");
}

/// Whatever the producer sends, the name is a valid one.
pub proof fn law_metric_names_are_valid(name: Seq<char>, unit: Seq<char>, counter: bool)
    ensures
        is_metric_name(metric_named(name, unit, counter)),
{
    law_names_become_valid(name);
    lemma_unit_words(trim(unit));
    reveal_strlit("_");
    reveal_strlit("_total");
    let start = prometheus_named(name);
    let out = metric_named(name, unit, counter);
    assert forall|i: int| 0 <= i < out.len() implies crate::labels::is_metric_char(
        #[trigger] out[i],
    ) by {
        if i < start.len() {
            assert(out[i] == start[i]);
        } else {
            match unit_word(trim(unit)) {
                Some(word) => {
                    if !carries(start, word) && start.len() < i < start.len() + 1 + word.len() {
                        assert(out[i] == word[i - start.len() - 1]);
                    }
                },
                None => {},
            }
        }
    }
    assert(out[0] == start[0]);
}

/// Nothing is added twice: a name that follows the convention keeps its spelling.
pub proof fn law_suffixes_are_not_repeated(name: Seq<char>, unit: Seq<char>, counter: bool)
    ensures
        metric_named(metric_named(name, unit, counter), unit, counter) == metric_named(
            name,
            unit,
            counter,
        ),
{
    let out = metric_named(name, unit, counter);
    law_metric_names_are_valid(name, unit, counter);
    law_names_become_valid(out);
    let start = prometheus_named(name);
    let total = "_total"@;
    match unit_word(trim(unit)) {
        Some(word) => {
            let with_unit = metric_named(name, unit, false);
            if !carries(start, word) {
                assert(with_unit.skip(with_unit.len() - word.len()) =~= word);
            }
            assert(carries(with_unit, word));
            if out != with_unit {
                assert(out == with_unit + total);
                if ends_with(with_unit, word) {
                    assert(out.skip(out.len() - (word + total).len()) =~= word + total) by {
                        let cut = (with_unit.len() - word.len()) as int;
                        assert(with_unit.skip(cut) == word);
                        assert forall|i: int| 0 <= i < word.len() implies with_unit[cut + i]
                            == #[trigger] word[i] by {
                            assert(with_unit.skip(cut)[i] == word[i]);
                        }
                    }
                } else {
                    let cut = (with_unit.len() - total.len()) as int;
                    let both = word + total;
                    assert(with_unit.skip(cut) =~= total) by {
                        let from = (with_unit.len() - both.len()) as int;
                        assert forall|i: int| 0 <= i < total.len() implies with_unit.skip(cut)[i]
                            == total[i] by {
                            assert(with_unit.skip(from)[word.len() + i] == both[word.len() + i]);
                        }
                    }
                }
            }
            assert(carries(out, word));
        },
        None => {},
    }
    if counter {
        law_a_counter_says_total(name, unit);
    }
}

/// A counter's name ends in `_total`.
pub proof fn law_a_counter_says_total(name: Seq<char>, unit: Seq<char>)
    ensures
        ends_with(metric_named(name, unit, true), "_total"@),
{
    let plain = metric_named(name, unit, false);
    if !ends_with(plain, "_total"@) {
        assert((plain + "_total"@).skip(plain.len() as int) =~= "_total"@);
    }
}

/// The running totals of a histogram's buckets never fall.
pub proof fn law_buckets_are_cumulative(counts: Seq<Option<u64>>, n: nat, m: nat)
    requires
        n <= m <= counts.len(),
    ensures
        cumulative(counts, n) <= cumulative(counts, m),
    decreases m,
{
    if n < m {
        law_buckets_are_cumulative(counts, n, (m - 1) as nat);
    }
}

/// A sum or histogram that counts from its last point is refused where the sender can see
/// it, and no sample of it is stored.
pub proof fn law_delta_is_refused(
    tally: Tally<SampleView>,
    metric: MetricView,
    resource: Seq<Pair>,
    app: Seq<char>,
    ctx: ContextView,
)
    ensures
        match metric.sum {
            Some(sum) => is_delta(sum.temporality) ==> with_sum(tally, metric, resource, app, ctx)
                == tally.with(Err(delta_refused(metric.name))),
            None => true,
        },
        match metric.histogram {
            Some(histogram) => is_delta(histogram.temporality) ==> with_histograms(
                tally,
                metric,
                resource,
                app,
                ctx,
            ) == tally.with(Err(delta_refused(metric.name))),
            None => true,
        },
        is_delta(FlexEnumView::Number(1)),
        is_delta(FlexEnumView::Name("AGGREGATION_TEMPORALITY_DELTA"@)),
        !is_delta(FlexEnumView::Number(0)) && !is_delta(FlexEnumView::Number(2)),
        !is_delta(FlexEnumView::Absent),
{
    let name = "AGGREGATION_TEMPORALITY_DELTA"@;
    reveal_strlit("AGGREGATION_TEMPORALITY_DELTA");
    reveal_strlit("AGGREGATION_TEMPORALITY_UNSPECIFIED");
    assert(name.len() == 29 && name[0] == 'A' && name[1] == 'G');
    assert("AGGREGATION_TEMPORALITY_UNSPECIFIED"@.len() == 35);
    assert(!crate::text::is_digit(name[0]));
    assert(crate::otlp::parse_i32(name) is None);
}

/// A metric of a kind that is not stored is refused, not dropped: each kind that it holds
/// gives one refusal.
pub proof fn law_unsupported_kinds_are_refused(tally: Tally<SampleView>, metric: MetricView)
    ensures
        metric.summary && !metric.exponential_histogram ==> with_unsupported(tally, metric)
            == tally.with(Err(unsupported(metric.name, "a summary"@))),
        metric.exponential_histogram && !metric.summary ==> with_unsupported(tally, metric)
            == tally.with(Err(unsupported(metric.name, "an exponential histogram"@))),
        !metric.exponential_histogram && !metric.summary ==> with_unsupported(tally, metric)
            == tally,
{
}

/// What a payload is decoded into stays within the budget, however far it would expand.
pub proof fn law_what_is_decoded_is_bounded(
    data: Seq<ResourceMetricsView>,
    ctx: ContextView,
    budget: usize,
)
    ensures
        data_tally(data, data.len(), ctx, budget).balanced(),
        data_tally(data, data.len(), ctx, budget).budget == budget,
{
    lemma_data_bounded(data, data.len(), ctx, budget);
}

proof fn lemma_data_bounded(
    data: Seq<ResourceMetricsView>,
    n: nat,
    ctx: ContextView,
    budget: usize,
)
    requires
        n <= data.len(),
    ensures
        data_tally(data, n, ctx, budget).balanced(),
        data_tally(data, n, ctx, budget).budget == budget,
    decreases n,
{
    if n > 0 {
        lemma_data_bounded(data, (n - 1) as nat, ctx, budget);
        lemma_resource_bounded(
            data_tally(data, (n - 1) as nat, ctx, budget),
            data[n - 1].scope_metrics,
            data[n - 1].scope_metrics.len(),
            resource_pairs(data[n - 1].resource, true),
            ctx,
        );
    }
}

proof fn lemma_resource_bounded(
    tally: Tally<SampleView>,
    scopes: Seq<ScopeMetricsView>,
    n: nat,
    resource: Seq<Pair>,
    ctx: ContextView,
)
    requires
        tally.balanced(),
    ensures
        ({
            let after = resource_tally(tally, scopes, n, resource, ctx);
            after.balanced() && after.budget == tally.budget && (tally.over() ==> after.over())
        }),
    decreases n,
{
    if 0 < n <= scopes.len() {
        lemma_resource_bounded(tally, scopes, (n - 1) as nat, resource, ctx);
        lemma_scope_bounded(
            resource_tally(tally, scopes, (n - 1) as nat, resource, ctx),
            scopes[n - 1].metrics,
            scopes[n - 1].metrics.len(),
            resource,
            ctx,
        );
    }
}

proof fn lemma_scope_bounded(
    tally: Tally<SampleView>,
    metrics: Seq<MetricView>,
    n: nat,
    resource: Seq<Pair>,
    ctx: ContextView,
)
    requires
        tally.balanced(),
    ensures
        ({
            let after = scope_tally(tally, metrics, n, resource, ctx);
            after.balanced() && after.budget == tally.budget && (tally.over() ==> after.over())
        }),
    decreases n,
{
    if 0 < n <= metrics.len() {
        lemma_scope_bounded(tally, metrics, (n - 1) as nat, resource, ctx);
        lemma_metric_bounded(
            scope_tally(tally, metrics, (n - 1) as nat, resource, ctx),
            metrics[n - 1],
            resource,
            app_named(resource),
            ctx,
        );
    }
}

proof fn lemma_metric_bounded(
    tally: Tally<SampleView>,
    metric: MetricView,
    resource: Seq<Pair>,
    app: Seq<char>,
    ctx: ContextView,
)
    requires
        tally.balanced(),
    ensures
        ({
            let after = with_metric(tally, metric, resource, app, ctx);
            after.balanced() && after.budget == tally.budget && (tally.over() ==> after.over())
        }),
{
    if trim(metric.name).len() == 0 {
        law_what_is_held_is_bounded(
            tally,
            Err(
                RejectionView {
                    reason: RejectReason::MissingMetricName,
                    detail: "metric has no name"@,
                },
            ),
        );
    } else {
        let plain = metric_named(metric.name, metric.unit, false);
        let gauged = match metric.gauge {
            Some(points) => {
                lemma_numbers_bounded(
                    tally,
                    plain,
                    MetricKind::Gauge,
                    points,
                    points.len(),
                    resource,
                    app,
                    ctx,
                );
                numbers_tally(
                    tally,
                    plain,
                    MetricKind::Gauge,
                    points,
                    points.len(),
                    resource,
                    app,
                    ctx,
                )
            },
            None => tally,
        };
        let summed = with_sum(gauged, metric, resource, app, ctx);
        if let Some(sum) = metric.sum {
            law_what_is_held_is_bounded(gauged, Err(delta_refused(metric.name)));
            lemma_numbers_bounded(
                gauged,
                metric_named(metric.name, metric.unit, sum.is_monotonic),
                if sum.is_monotonic {
                    MetricKind::Counter
                } else {
                    MetricKind::Gauge
                },
                sum.data_points,
                sum.data_points.len(),
                resource,
                app,
                ctx,
            );
        }
        let counted = with_histograms(summed, metric, resource, app, ctx);
        if let Some(histogram) = metric.histogram {
            law_what_is_held_is_bounded(summed, Err(delta_refused(metric.name)));
            lemma_histograms_bounded(
                summed,
                plain,
                histogram.data_points,
                histogram.data_points.len(),
                resource,
                app,
                ctx,
            );
        }
        law_what_is_held_is_bounded(
            counted,
            Err(unsupported(metric.name, "an exponential histogram"@)),
        );
        let first = if metric.exponential_histogram {
            counted.with(Err(unsupported(metric.name, "an exponential histogram"@)))
        } else {
            counted
        };
        law_what_is_held_is_bounded(first, Err(unsupported(metric.name, "a summary"@)));
    }
}

proof fn lemma_numbers_bounded(
    tally: Tally<SampleView>,
    name: Seq<char>,
    kind: MetricKind,
    points: Seq<PointView>,
    n: nat,
    resource: Seq<Pair>,
    app: Seq<char>,
    ctx: ContextView,
)
    requires
        tally.balanced(),
    ensures
        ({
            let after = numbers_tally(tally, name, kind, points, n, resource, app, ctx);
            after.balanced() && after.budget == tally.budget && (tally.over() ==> after.over())
        }),
    decreases n,
{
    if 0 < n <= points.len() {
        let rest = numbers_tally(
            tally,
            name,
            kind,
            points,
            (n - 1) as nat,
            resource,
            app,
            ctx,
        );
        lemma_numbers_bounded(tally, name, kind, points, (n - 1) as nat, resource, app, ctx);
        let point = points[n - 1];
        let series = point_labels(name, point.attributes, resource, app, ctx);
        law_what_is_held_is_bounded(
            rest.rescaled_if(point_rescaled(point.time_unix_nano)),
            match labels_rejected(series, "labels"@, ctx.limits) {
                Some(rejection) => Err(rejection),
                None => Ok(
                    SampleView {
                        timestamp_nanos: point_time(point.time_unix_nano, ctx),
                        series,
                        value: point_value(point),
                        kind,
                    },
                ),
            },
        );
    }
}

proof fn lemma_histograms_bounded(
    tally: Tally<SampleView>,
    name: Seq<char>,
    points: Seq<HistogramView>,
    n: nat,
    resource: Seq<Pair>,
    app: Seq<char>,
    ctx: ContextView,
)
    requires
        tally.balanced(),
    ensures
        ({
            let after = histograms_tally(tally, name, points, n, resource, app, ctx);
            after.balanced() && after.budget == tally.budget && (tally.over() ==> after.over())
        }),
    decreases n,
{
    if 0 < n <= points.len() {
        let rest = histograms_tally(tally, name, points, (n - 1) as nat, resource, app, ctx);
        lemma_histograms_bounded(tally, name, points, (n - 1) as nat, resource, app, ctx);
        let point = points[n - 1];
        let base = point_labels(name, point.attributes, resource, app, ctx);
        let timed = rest.rescaled_if(point_rescaled(point.time_unix_nano));
        assert(timed.balanced());
        match labels_rejected(base, "labels"@, ctx.limits) {
            Some(rejection) => {
                law_what_is_held_is_bounded(timed, Err(rejection));
            },
            None => {
                lemma_records_are_bounded(
                    timed,
                    histogram_samples(name, base, point, point_time(point.time_unix_nano, ctx)),
                );
            },
        }
    }
}

/// A request that is not over its budget comes to what it would come to without one.
proof fn lemma_data_agrees(data: Seq<ResourceMetricsView>, n: nat, ctx: ContextView, budget: usize)
    ensures
        data_tally(data, n, ctx, budget).agrees(data_tally(data, n, ctx, usize::MAX)),
    decreases n,
{
    if 0 < n <= data.len() {
        lemma_data_agrees(data, (n - 1) as nat, ctx, budget);
        lemma_resource_agrees(
            data_tally(data, (n - 1) as nat, ctx, budget),
            data_tally(data, (n - 1) as nat, ctx, usize::MAX),
            data[n - 1].scope_metrics,
            data[n - 1].scope_metrics.len(),
            resource_pairs(data[n - 1].resource, true),
            ctx,
        );
    }
}

proof fn lemma_resource_agrees(
    small: Tally<SampleView>,
    whole: Tally<SampleView>,
    scopes: Seq<ScopeMetricsView>,
    n: nat,
    resource: Seq<Pair>,
    ctx: ContextView,
)
    requires
        small.agrees(whole),
    ensures
        resource_tally(small, scopes, n, resource, ctx).agrees(
            resource_tally(whole, scopes, n, resource, ctx),
        ),
    decreases n,
{
    if 0 < n <= scopes.len() {
        lemma_resource_agrees(small, whole, scopes, (n - 1) as nat, resource, ctx);
        lemma_scope_agrees(
            resource_tally(small, scopes, (n - 1) as nat, resource, ctx),
            resource_tally(whole, scopes, (n - 1) as nat, resource, ctx),
            scopes[n - 1].metrics,
            scopes[n - 1].metrics.len(),
            resource,
            ctx,
        );
    }
}

proof fn lemma_scope_agrees(
    small: Tally<SampleView>,
    whole: Tally<SampleView>,
    metrics: Seq<MetricView>,
    n: nat,
    resource: Seq<Pair>,
    ctx: ContextView,
)
    requires
        small.agrees(whole),
    ensures
        scope_tally(small, metrics, n, resource, ctx).agrees(
            scope_tally(whole, metrics, n, resource, ctx),
        ),
    decreases n,
{
    if 0 < n <= metrics.len() {
        lemma_scope_agrees(small, whole, metrics, (n - 1) as nat, resource, ctx);
        lemma_metric_agrees(
            scope_tally(small, metrics, (n - 1) as nat, resource, ctx),
            scope_tally(whole, metrics, (n - 1) as nat, resource, ctx),
            metrics[n - 1],
            resource,
            app_named(resource),
            ctx,
        );
    }
}

proof fn lemma_metric_agrees(
    small: Tally<SampleView>,
    whole: Tally<SampleView>,
    metric: MetricView,
    resource: Seq<Pair>,
    app: Seq<char>,
    ctx: ContextView,
)
    requires
        small.agrees(whole),
    ensures
        with_metric(small, metric, resource, app, ctx).agrees(
            with_metric(whole, metric, resource, app, ctx),
        ),
{
    let nameless = RejectionView {
        reason: RejectReason::MissingMetricName,
        detail: "metric has no name"@,
    };
    lemma_with_agrees(small, whole, Err(nameless));
    if trim(metric.name).len() > 0 {
        let plain = metric_named(metric.name, metric.unit, false);
        if let Some(points) = metric.gauge {
            let n = points.len();
            lemma_numbers_agree(
                small,
                whole,
                plain,
                MetricKind::Gauge,
                points,
                n,
                resource,
                app,
                ctx,
            );
            lemma_ungauged_agrees(
                numbers_tally(small, plain, MetricKind::Gauge, points, n, resource, app, ctx),
                numbers_tally(whole, plain, MetricKind::Gauge, points, n, resource, app, ctx),
                metric,
                resource,
                app,
                ctx,
            );
        } else {
            lemma_ungauged_agrees(small, whole, metric, resource, app, ctx);
        }
    }
}

proof fn lemma_ungauged_agrees(
    small: Tally<SampleView>,
    whole: Tally<SampleView>,
    metric: MetricView,
    resource: Seq<Pair>,
    app: Seq<char>,
    ctx: ContextView,
)
    requires
        small.agrees(whole),
    ensures
        with_unsupported(
            with_histograms(
                with_sum(small, metric, resource, app, ctx),
                metric,
                resource,
                app,
                ctx,
            ),
            metric,
        ).agrees(
            with_unsupported(
            with_histograms(
                with_sum(whole, metric, resource, app, ctx),
                metric,
                resource,
                app,
                ctx,
            ),
            metric,
        ),
        ),
{
    let refusal = Err(delta_refused(metric.name));
    let plain = metric_named(metric.name, metric.unit, false);
    lemma_with_agrees(small, whole, refusal);
    if let Some(sum) = metric.sum {
        let name = metric_named(metric.name, metric.unit, sum.is_monotonic);
        let kind = if sum.is_monotonic {
            MetricKind::Counter
        } else {
            MetricKind::Gauge
        };
        let n = sum.data_points.len();
        lemma_numbers_agree(small, whole, name, kind, sum.data_points, n, resource, app, ctx);
    }
    let (s1, w1) = (
        with_sum(small, metric, resource, app, ctx),
        with_sum(whole, metric, resource, app, ctx),
    );
    assert(s1.agrees(w1));
    lemma_with_agrees(s1, w1, refusal);
    if let Some(histogram) = metric.histogram {
        let n = histogram.data_points.len();
        lemma_histograms_agree(s1, w1, plain, histogram.data_points, n, resource, app, ctx);
    }
    let (s2, w2) = (
        with_histograms(s1, metric, resource, app, ctx),
        with_histograms(w1, metric, resource, app, ctx),
    );
    assert(s2.agrees(w2));
    let exponential = Err(unsupported(metric.name, "an exponential histogram"@));
    let summary = Err(unsupported(metric.name, "a summary"@));
    lemma_with_agrees(s2, w2, exponential);
    lemma_with_agrees(s2, w2, summary);
    lemma_with_agrees(s2.with(exponential), w2.with(exponential), summary);
}

proof fn lemma_numbers_agree(
    small: Tally<SampleView>,
    whole: Tally<SampleView>,
    name: Seq<char>,
    kind: MetricKind,
    points: Seq<PointView>,
    n: nat,
    resource: Seq<Pair>,
    app: Seq<char>,
    ctx: ContextView,
)
    requires
        small.agrees(whole),
    ensures
        numbers_tally(small, name, kind, points, n, resource, app, ctx).agrees(
            numbers_tally(whole, name, kind, points, n, resource, app, ctx),
        ),
    decreases n,
{
    if 0 < n <= points.len() {
        let m = (n - 1) as nat;
        lemma_numbers_agree(small, whole, name, kind, points, m, resource, app, ctx);
        let a = numbers_tally(small, name, kind, points, m, resource, app, ctx);
        let b = numbers_tally(whole, name, kind, points, m, resource, app, ctx);
        let point = points[n - 1];
        let moved = point_rescaled(point.time_unix_nano);
        let series = point_labels(name, point.attributes, resource, app, ctx);
        lemma_with_agrees(
            a.rescaled_if(moved),
            b.rescaled_if(moved),
            match labels_rejected(series, "labels"@, ctx.limits) {
                Some(rejection) => Err(rejection),
                None => Ok(
                    SampleView {
                        timestamp_nanos: point_time(point.time_unix_nano, ctx),
                        series,
                        value: point_value(point),
                        kind,
                    },
                ),
            },
        );
    }
}

proof fn lemma_histograms_agree(
    small: Tally<SampleView>,
    whole: Tally<SampleView>,
    name: Seq<char>,
    points: Seq<HistogramView>,
    n: nat,
    resource: Seq<Pair>,
    app: Seq<char>,
    ctx: ContextView,
)
    requires
        small.agrees(whole),
    ensures
        histograms_tally(small, name, points, n, resource, app, ctx).agrees(
            histograms_tally(whole, name, points, n, resource, app, ctx),
        ),
    decreases n,
{
    if 0 < n <= points.len() {
        let m = (n - 1) as nat;
        lemma_histograms_agree(small, whole, name, points, m, resource, app, ctx);
        let a = histograms_tally(small, name, points, m, resource, app, ctx);
        let b = histograms_tally(whole, name, points, m, resource, app, ctx);
        let point = points[n - 1];
        let moved = point_rescaled(point.time_unix_nano);
        let base = point_labels(name, point.attributes, resource, app, ctx);
        let (s1, w1) = (a.rescaled_if(moved), b.rescaled_if(moved));
        assert(s1.agrees(w1));
        match labels_rejected(base, "labels"@, ctx.limits) {
            Some(rejection) => {
                lemma_with_agrees(s1, w1, Err(rejection));
            },
            None => {
                lemma_records_agree(
                    s1,
                    w1,
                    histogram_samples(name, base, point, point_time(point.time_unix_nano, ctx)),
                );
            },
        }
    }
}

} // verus!
