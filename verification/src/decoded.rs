//! What decoding a request comes to: records kept, records refused and why, and what it
//! all costs to hold.
use vstd::prelude::*;

use crate::config::LimitsConfig;
use crate::error::{refused, Error, Failure, Fault};
use crate::labels::{Labels, Pair};
use crate::record::{LogRecord, LogView, MetricSample, SampleView, SpanRecord, SpanView};
use crate::text::{byte_len, decimal, decimal_text, lemma_views_push, utf8_len, views};
use crate::textset::{add_text, join, joined, sorted_set};

verus! {

// ---------------------------------------------------------------------------
// Rejections
// ---------------------------------------------------------------------------

/// Why a record was refused. Its label is a closed set rather than free text, so that an
/// operator can alert on it.
#[derive(Debug, Clone, Copy, PartialEq, Eq, PartialOrd, Ord, Structural)]
pub enum RejectReason {
    BodyTooLarge,
    TooManyAttributes,
    TooManyLabels,
    LabelNameTooLong,
    LabelValueTooLong,
    /// A span with no usable trace id cannot be joined to anything.
    MissingTraceId,
    /// Likewise with no span id: nothing could ever reference it.
    MissingSpanId,
    /// A time series with no `__name__`.
    MissingMetricName,
    /// A metric name that is not a valid Prometheus name.
    InvalidMetricName,
    /// A sample timestamp outside any plausible range.
    InvalidTimestamp,
    /// Storing it would create a new series past the configured cardinality cap. Decided
    /// by the store, after decoding.
    SeriesLimit,
    /// A delta-temporality sum or histogram. Stored as if cumulative it would read as a
    /// counter that resets at every point, so it is refused where the sender can see it.
    DeltaTemporality,
    /// A summary or exponential histogram, which is not stored.
    UnsupportedMetricType,
}

impl RejectReason {
    pub open spec fn label(self) -> Seq<char> {
        match self {
            RejectReason::BodyTooLarge => "body_too_large"@,
            RejectReason::TooManyAttributes => "too_many_attributes"@,
            RejectReason::TooManyLabels => "too_many_labels"@,
            RejectReason::LabelNameTooLong => "label_name_too_long"@,
            RejectReason::LabelValueTooLong => "label_value_too_long"@,
            RejectReason::MissingTraceId => "missing_trace_id"@,
            RejectReason::MissingSpanId => "missing_span_id"@,
            RejectReason::MissingMetricName => "missing_metric_name"@,
            RejectReason::InvalidMetricName => "invalid_metric_name"@,
            RejectReason::InvalidTimestamp => "invalid_timestamp"@,
            RejectReason::SeriesLimit => "series_limit"@,
            RejectReason::DeltaTemporality => "delta_temporality"@,
            RejectReason::UnsupportedMetricType => "unsupported_metric_type"@,
        }
    }

    pub fn as_str(self) -> (label: &'static str)
        ensures
            label@ == self.label(),
    {
        match self {
            RejectReason::BodyTooLarge => "body_too_large",
            RejectReason::TooManyAttributes => "too_many_attributes",
            RejectReason::TooManyLabels => "too_many_labels",
            RejectReason::LabelNameTooLong => "label_name_too_long",
            RejectReason::LabelValueTooLong => "label_value_too_long",
            RejectReason::MissingTraceId => "missing_trace_id",
            RejectReason::MissingSpanId => "missing_span_id",
            RejectReason::MissingMetricName => "missing_metric_name",
            RejectReason::InvalidMetricName => "invalid_metric_name",
            RejectReason::InvalidTimestamp => "invalid_timestamp",
            RejectReason::SeriesLimit => "series_limit",
            RejectReason::DeltaTemporality => "delta_temporality",
            RejectReason::UnsupportedMetricType => "unsupported_metric_type",
        }
    }
}

/// A refused record.
#[derive(Debug)]
pub struct Rejection {
    pub reason: RejectReason,
    /// Human-readable specifics, surfaced in the `partialSuccess` error message.
    pub detail: String,
}

pub struct RejectionView {
    pub reason: RejectReason,
    pub detail: Seq<char>,
}

impl View for Rejection {
    type V = RejectionView;

    open spec fn view(&self) -> RejectionView {
        RejectionView { reason: self.reason, detail: self.detail@ }
    }
}

impl Clone for Rejection {
    fn clone(&self) -> (copy: Rejection)
        ensures
            copy@ == self@,
    {
        Rejection { reason: self.reason, detail: self.detail.clone() }
    }
}

impl Rejection {
    pub fn new(reason: RejectReason, detail: String) -> (rejection: Rejection)
        ensures
            rejection@ == (RejectionView { reason, detail: detail@ }),
    {
        Rejection { reason, detail }
    }
}

// ---------------------------------------------------------------------------
// What a record costs
// ---------------------------------------------------------------------------

/// What a decoded record costs to hold, for [`Decoded::keep`].
pub trait DecodedBytes {
    spec fn cost(&self) -> nat;

    fn decoded_bytes(&self) -> (bytes: usize)
        ensures
            bytes == capped(self.cost()),
    ;
}

/// What a log record takes beside its texts, as it lies on a machine of 64 bits. A request
/// is charged the same on every machine.
pub const LOG_BYTES: usize = 160;

/// What a span takes beside its texts, its events and its links.
pub const SPAN_BYTES: usize = 240;

/// What an event takes.
pub const EVENT_BYTES: usize = 56;

/// What a link takes.
pub const LINK_BYTES: usize = 96;

/// What a sample takes beside its labels.
pub const SAMPLE_BYTES: usize = 48;

/// What a rejection takes beside its detail.
pub const REJECTION_BYTES: usize = 32;

/// A count of bytes, held to what a machine word can say.
pub open spec fn capped(n: nat) -> usize {
    if n > usize::MAX {
        usize::MAX
    } else {
        n as usize
    }
}

/// The bytes of the names and values of labels.
pub open spec fn labels_cost(labels: Seq<Pair>) -> nat
    decreases labels.len(),
{
    if labels.len() == 0 {
        0
    } else {
        labels_cost(labels.drop_last()) + utf8_len(labels.last().0) + utf8_len(labels.last().1)
    }
}

fn labels_bytes(labels: &Labels) -> (bytes: usize)
    ensures
        bytes == capped(labels_cost(labels@)),
{
    let mut total: usize = 0;
    let mut i: usize = 0;
    assert(labels@.take(0) =~= Seq::empty());
    while i < labels.len()
        invariant
            i <= labels@.len(),
            total == capped(labels_cost(labels@.take(i as int))),
        decreases labels@.len() - i,
    {
        assert(labels@.take(i as int + 1).drop_last() =~= labels@.take(i as int));
        total = total.saturating_add(byte_len(labels.name_at(i)));
        total = total.saturating_add(byte_len(labels.value_at(i)));
        i += 1;
    }
    assert(labels@.take(i as int) =~= labels@);
    total
}

fn text_bytes(text: &Option<String>) -> (bytes: usize)
    ensures
        bytes == text_cost(crate::text::option_view(*text)),
{
    match text {
        Some(text) => byte_len(text.as_str()),
        None => 0,
    }
}

pub open spec fn text_cost(text: Option<Seq<char>>) -> nat {
    match text {
        Some(text) => utf8_len(text),
        None => 0,
    }
}

/// What a log record costs: its own size and that of its texts.
pub open spec fn log_cost(record: LogView) -> nat {
    LOG_BYTES as nat + labels_cost(record.stream) + labels_cost(record.attributes) + utf8_len(
        record.body,
    ) + utf8_len(record.severity_text) + text_cost(record.trace_id) + text_cost(record.span_id)
}

impl DecodedBytes for LogRecord {
    open spec fn cost(&self) -> nat {
        log_cost(self@)
    }

    fn decoded_bytes(&self) -> (bytes: usize) {
        let own: usize = LOG_BYTES;
        own.saturating_add(labels_bytes(&self.stream)).saturating_add(
            labels_bytes(&self.attributes),
        ).saturating_add(byte_len(self.body.as_str())).saturating_add(
            byte_len(self.severity_text.as_str()),
        ).saturating_add(text_bytes(&self.trace_id)).saturating_add(text_bytes(&self.span_id))
    }
}

/// What a span costs: its own size, that of its texts, and its events and links.
pub open spec fn span_cost(span: SpanView) -> nat {
    SPAN_BYTES as nat + labels_cost(span.stream) + labels_cost(span.attributes) + utf8_len(
        span.name,
    ) + utf8_len(span.status_message) + utf8_len(span.trace_id) + utf8_len(span.span_id)
        + text_cost(span.parent_span_id) + span.events.len() * (EVENT_BYTES as nat)
        + span.links.len() * (LINK_BYTES as nat)
}

fn list_bytes(count: usize, each: usize) -> (bytes: usize)
    ensures
        bytes == capped((count * each) as nat),
{
    match count.checked_mul(each) {
        Some(bytes) => bytes,
        None => usize::MAX,
    }
}

impl DecodedBytes for SpanRecord {
    open spec fn cost(&self) -> nat {
        span_cost(self@)
    }

    fn decoded_bytes(&self) -> (bytes: usize) {
        let own: usize = SPAN_BYTES;
        let events: usize = list_bytes(
            self.events.len(),
            EVENT_BYTES,
        );
        let links: usize = list_bytes(
            self.links.len(),
            LINK_BYTES,
        );
        own.saturating_add(labels_bytes(&self.stream)).saturating_add(
            labels_bytes(&self.attributes),
        ).saturating_add(byte_len(self.name.as_str())).saturating_add(
            byte_len(self.status_message.as_str()),
        ).saturating_add(byte_len(self.trace_id.as_str())).saturating_add(
            byte_len(self.span_id.as_str()),
        ).saturating_add(text_bytes(&self.parent_span_id)).saturating_add(events).saturating_add(
            links,
        )
    }
}

/// What a sample costs: its own size and that of its labels.
pub open spec fn sample_cost(sample: SampleView) -> nat {
    SAMPLE_BYTES as nat + labels_cost(sample.series)
}

impl DecodedBytes for MetricSample {
    open spec fn cost(&self) -> nat {
        sample_cost(self@)
    }

    fn decoded_bytes(&self) -> (bytes: usize) {
        let own: usize = SAMPLE_BYTES;
        own.saturating_add(labels_bytes(&self.series))
    }
}

// ---------------------------------------------------------------------------
// Decoded requests
// ---------------------------------------------------------------------------

/// The result of decoding one request.
#[derive(Debug)]
pub struct Decoded<T> {
    pub records: Vec<T>,
    pub rejections: Vec<Rejection>,
    /// Records whose timestamp was in the wrong unit and was corrected.
    pub rescaled_timestamps: u64,
    /// Bodies that were cut rather than dropped.
    pub truncated_bodies: u64,
    /// What this request may expand to.
    pub budget: usize,
    /// What it has expanded to so far.
    pub used: usize,
}

/// What stands for a record in a contract, and what the record costs to hold.
pub trait Weighed: Sized {
    spec fn weight(self) -> nat;
}

impl Weighed for LogView {
    open spec fn weight(self) -> nat {
        log_cost(self)
    }
}

impl Weighed for SpanView {
    open spec fn weight(self) -> nat {
        span_cost(self)
    }
}

impl Weighed for SampleView {
    open spec fn weight(self) -> nat {
        sample_cost(self)
    }
}

/// What decoding a request comes to, over what stands for a record.
pub struct Tally<V> {
    pub records: Seq<V>,
    pub rejections: Seq<RejectionView>,
    pub rescaled: u64,
    pub truncated: u64,
    pub budget: usize,
    pub used: usize,
}

/// What a request may expand to.
pub open spec fn allowance(limits: LimitsConfig) -> usize {
    capped(limits.max_decoded_bytes as nat)
}

impl<V: Weighed> Tally<V> {
    /// Nothing decoded yet.
    pub open spec fn none(budget: usize) -> Tally<V> {
        Tally {
            records: Seq::empty(),
            rejections: Seq::empty(),
            rescaled: 0,
            truncated: 0,
            budget,
            used: 0,
        }
    }

    /// Whether more was decoded than may be held.
    pub open spec fn over(self) -> bool {
        self.used > self.budget
    }

    /// One more record, kept or refused. It is charged either way, and held only within the
    /// budget.
    pub open spec fn with(self, outcome: Result<V, RejectionView>) -> Tally<V> {
        match outcome {
            Ok(record) => {
                let used = charged(self.used, record.weight());
                Tally {
                    records: if used <= self.budget {
                        self.records.push(record)
                    } else {
                        self.records
                    },
                    used,
                    ..self
                }
            },
            Err(rejection) => {
                let used = charged(self.used, rejection_cost(rejection));
                Tally {
                    rejections: if used <= self.budget {
                        self.rejections.push(rejection)
                    } else {
                        self.rejections
                    },
                    used,
                    ..self
                }
            },
        }
    }

    /// Several more records.
    pub open spec fn with_records(self, records: Seq<V>) -> Tally<V>
        decreases records.len(),
    {
        if records.len() == 0 {
            self
        } else {
            self.with_records(records.drop_last()).with(Ok(records.last()))
        }
    }

    /// Whether a request comes to what `whole` does, which is under no budget: it is charged
    /// the same, and within its own budget it holds the same.
    pub open spec fn agrees(self, whole: Tally<V>) -> bool {
        &&& whole.budget == usize::MAX
        &&& self.used == whole.used
        &&& self.rescaled == whole.rescaled
        &&& self.truncated == whole.truncated
        &&& !self.over() ==> self.records == whole.records && self.rejections
            == whole.rejections
    }

    /// What is held costs.
    pub open spec fn held(self) -> nat {
        records_cost(self.records) + rejections_cost(self.rejections)
    }

    /// What is held is within the budget, and until that is passed it is all that was
    /// charged.
    pub open spec fn balanced(self) -> bool {
        &&& capped(self.held()) <= self.budget
        &&& !self.over() ==> self.used == capped(self.held())
    }

    /// One more timestamp corrected, where `yes`.
    pub open spec fn rescaled_if(self, yes: bool) -> Tally<V> {
        if yes {
            Tally { rescaled: counted(self.rescaled), ..self }
        } else {
            self
        }
    }

    /// One more body cut, where `yes`.
    pub open spec fn truncated_if(self, yes: bool) -> Tally<V> {
        if yes {
            Tally { truncated: counted(self.truncated), ..self }
        } else {
            self
        }
    }

    /// How many records were decoded, kept or refused.
    pub open spec fn total(self) -> nat {
        self.records.len() + self.rejections.len()
    }
}

/// What records cost between them.
pub open spec fn records_cost<V: Weighed>(records: Seq<V>) -> nat
    decreases records.len(),
{
    if records.len() == 0 {
        0
    } else {
        records_cost(records.drop_last()) + records.last().weight()
    }
}

/// What rejections cost between them.
pub open spec fn rejections_cost(rejections: Seq<RejectionView>) -> nat
    decreases rejections.len(),
{
    if rejections.len() == 0 {
        0
    } else {
        rejections_cost(rejections.drop_last()) + rejection_cost(rejections.last())
    }
}

/// One more, held to what the counter can say.
pub open spec fn counted(n: u64) -> u64 {
    if n == u64::MAX {
        n
    } else {
        (n + 1) as u64
    }
}

/// One more, held to what the counter can say.
pub fn count(n: u64) -> (r: u64)
    ensures
        r == counted(n),
{
    n.saturating_add(1)
}

impl<T: View> Decoded<T> {
    /// What the request comes to.
    pub open spec fn tally(self) -> Tally<T::V> {
        Tally {
            records: views(self.records@),
            rejections: views(self.rejections@),
            rescaled: self.rescaled_timestamps,
            truncated: self.truncated_bodies,
            budget: self.budget,
            used: self.used,
        }
    }

    /// Adds a record that was kept or refused.
    pub(crate) fn push(&mut self, outcome: Result<T, Rejection>) where
        T: DecodedBytes,
        <T as View>::V: Weighed,

        requires
            outcome is Ok ==> outcome->Ok_0.cost() == outcome->Ok_0@.weight(),
        ensures
            final(self).tally() == old(self).tally().with(
                match outcome {
                    Ok(record) => Ok(record@),
                    Err(rejection) => Err(rejection@),
                },
            ),
    {
        match outcome {
            Ok(record) => {
                proof {
                    lemma_views_push(self.records@, record);
                }
                self.keep(record);
            },
            Err(rejection) => {
                proof {
                    lemma_views_push(self.rejections@, rejection);
                }
                self.refuse(rejection);
            },
        }
    }
}

impl<T> Default for Decoded<T> {
    fn default() -> (decoded: Decoded<T>)
        ensures
            decoded.records@ == Seq::<T>::empty(),
            decoded.rejections@ == Seq::<Rejection>::empty(),
            decoded.rescaled_timestamps == 0,
            decoded.truncated_bodies == 0,
            decoded.budget == usize::MAX,
            decoded.used == 0,
    {
        Decoded {
            records: Vec::new(),
            rejections: Vec::new(),
            rescaled_timestamps: 0,
            truncated_bodies: 0,
            budget: usize::MAX,
            used: 0,
        }
    }
}

/// A new result comes to nothing.
pub proof fn lemma_empty_tally<T: View>(decoded: Decoded<T>) where <T as View>::V: Weighed
    requires
        decoded.records@ == Seq::<T>::empty(),
        decoded.rejections@ == Seq::<Rejection>::empty(),
        decoded.rescaled_timestamps == 0,
        decoded.truncated_bodies == 0,
        decoded.used == 0,
    ensures
        decoded.tally() == Tally::<T::V>::none(decoded.budget),
{
    assert(decoded.tally().records =~= Seq::empty());
    assert(decoded.tally().rejections =~= Seq::empty());
}

/// The reasons of rejections, as labels in order, each once.
pub open spec fn reasons_of(rejections: Seq<RejectionView>) -> Seq<Seq<char>> {
    sorted_set(rejections.map_values(|r: RejectionView| r.reason.label()))
}

/// The detail of a record that the store refused.
pub open spec fn series_limit_detail(limit: Seq<char>) -> Seq<char> {
    "would create a new series past "@ + limit
        + "; raise the limit or send fewer distinct label combinations"@
}

/// What a rejection costs to hold.
pub open spec fn rejection_cost(rejection: RejectionView) -> nat {
    REJECTION_BYTES as nat + utf8_len(rejection.detail)
}

/// What has been used after `bytes` more.
pub open spec fn charged(used: usize, bytes: nat) -> usize {
    capped(used as nat + capped(bytes) as nat)
}

impl<T> Decoded<T> {
    /// An empty result that will hold at most `limits.max_decoded_bytes`.
    pub fn bounded(limits: &LimitsConfig) -> (decoded: Decoded<T>)
        ensures
            decoded.records@ == Seq::<T>::empty(),
            decoded.rejections@ == Seq::<Rejection>::empty(),
            decoded.rescaled_timestamps == 0,
            decoded.truncated_bodies == 0,
            decoded.budget == allowance(*limits),
            decoded.used == 0,
    {
        let budget: usize = if limits.max_decoded_bytes > usize::MAX as u64 {
            usize::MAX
        } else {
            limits.max_decoded_bytes as usize
        };
        Decoded {
            records: Vec::new(),
            rejections: Vec::new(),
            rescaled_timestamps: 0,
            truncated_bodies: 0,
            budget,
            used: 0,
        }
    }

    /// Keeps a decoded record, unless the request has outgrown its budget. Past the
    /// budget records are dropped as they are produced; the caller then refuses the whole
    /// request.
    pub fn keep(&mut self, record: T) where T: DecodedBytes
        ensures
            final(self).used == charged(old(self).used, record.cost()),
            final(self).budget == old(self).budget,
            final(self).rejections@ == old(self).rejections@,
            final(self).rescaled_timestamps == old(self).rescaled_timestamps,
            final(self).truncated_bodies == old(self).truncated_bodies,
            final(self).records@ == (if charged(old(self).used, record.cost()) <= old(self).budget {
                old(self).records@.push(record)
            } else {
                old(self).records@
            }),
    {
        let bytes: usize = record.decoded_bytes();
        if self.charge(bytes) {
            self.records.push(record);
        }
    }

    /// Records a rejection, charged like a record.
    pub fn refuse(&mut self, rejection: Rejection)
        ensures
            final(self).used == charged(old(self).used, rejection_cost(rejection@)),
            final(self).budget == old(self).budget,
            final(self).records@ == old(self).records@,
            final(self).rescaled_timestamps == old(self).rescaled_timestamps,
            final(self).truncated_bodies == old(self).truncated_bodies,
            final(self).rejections@ == (if charged(old(self).used, rejection_cost(rejection@))
                <= old(self).budget {
                old(self).rejections@.push(rejection)
            } else {
                old(self).rejections@
            }),
    {
        let own: usize = REJECTION_BYTES;
        let size: usize = own.saturating_add(byte_len(rejection.detail.as_str()));
        if self.charge(size) {
            self.rejections.push(rejection);
        }
    }

    fn charge(&mut self, bytes: usize) -> (within: bool)
        ensures
            final(self).used == charged(old(self).used, bytes as nat),
            within == (final(self).used <= old(self).budget),
            final(self).budget == old(self).budget,
            final(self).records@ == old(self).records@,
            final(self).rejections@ == old(self).rejections@,
            final(self).rescaled_timestamps == old(self).rescaled_timestamps,
            final(self).truncated_bodies == old(self).truncated_bodies,
    {
        self.used = self.used.saturating_add(bytes);
        self.used <= self.budget
    }

    /// Whether the request decoded to more than it may hold. What was kept is then
    /// incomplete, and must not be stored.
    pub fn over_budget(&self) -> (r: bool)
        ensures
            r == (self.used > self.budget),
    {
        self.used > self.budget
    }

    /// What the request expanded to.
    pub fn decoded_bytes(&self) -> (bytes: usize)
        ensures
            bytes == self.used,
    {
        self.used
    }

    pub fn accepted(&self) -> (n: usize)
        ensures
            n == self.records@.len(),
    {
        self.records.len()
    }

    pub fn rejected(&self) -> (n: usize)
        ensures
            n == self.rejections@.len(),
    {
        self.rejections.len()
    }

    /// Folds in records that the store refused, after decoding succeeded.
    pub fn note_series_rejections(&mut self, rejected: usize, limit: Option<&str>)
        ensures
            final(self).records@ == old(self).records@,
            final(self).rescaled_timestamps == old(self).rescaled_timestamps,
            final(self).truncated_bodies == old(self).truncated_bodies,
            final(self).budget == old(self).budget,
            final(self).used == old(self).used,
            views(final(self).rejections@) == (match limit {
                None => views(old(self).rejections@),
                Some(limit) => views(old(self).rejections@) + Seq::new(
                    rejected as nat,
                    |i: int|
                        RejectionView {
                            reason: RejectReason::SeriesLimit,
                            detail: series_limit_detail(limit@),
                        },
                ),
            }),
    {
        let limit: &str = match limit {
            Some(limit) => limit,
            None => {
                return;
            },
        };
        let ghost start = views(self.rejections@);
        let ghost one = RejectionView {
            reason: RejectReason::SeriesLimit,
            detail: series_limit_detail(limit@),
        };
        let mut n: usize = 0;
        assert(start + Seq::new(0, |i: int| one) =~= start);
        while n < rejected
            invariant
                n <= rejected,
                one == (RejectionView {
                    reason: RejectReason::SeriesLimit,
                    detail: series_limit_detail(limit@),
                }),
                self.records@ == old(self).records@,
                self.rescaled_timestamps == old(self).rescaled_timestamps,
                self.truncated_bodies == old(self).truncated_bodies,
                self.budget == old(self).budget,
                self.used == old(self).used,
                views(self.rejections@) == start + Seq::new(n as nat, |i: int| one),
            decreases rejected - n,
        {
            let mut detail: String = "would create a new series past ".to_owned();
            detail.append(limit);
            detail.append("; raise the limit or send fewer distinct label combinations");
            let rejection: Rejection = Rejection { reason: RejectReason::SeriesLimit, detail };
            proof {
                lemma_views_push(self.rejections@, rejection);
                assert(start + Seq::new((n + 1) as nat, |i: int| one) =~= (start + Seq::new(
                    n as nat,
                    |i: int| one,
                )).push(one));
            }
            self.rejections.push(rejection);
            n += 1;
        }
        assert(views(self.rejections@) =~= start + Seq::new(
            rejected as nat,
            |i: int|
                RejectionView {
                    reason: RejectReason::SeriesLimit,
                    detail: series_limit_detail(limit@),
                },
        ));
    }

    /// One-line summary for OTLP `partialSuccess.errorMessage`: the distinct reasons and
    /// one concrete example.
    pub fn rejection_summary(&self) -> (summary: Option<String>)
        ensures
            self.rejections@.len() == 0 <==> summary is None,
            summary is Some ==> summary->Some_0@ == summary_of(views(self.rejections@)),
    {
        if self.rejections.len() == 0 {
            return None;
        }
        let ghost all = views(self.rejections@);
        let ghost labels = all.map_values(|r: RejectionView| r.reason.label());
        let mut reasons: Vec<String> = Vec::new();
        let mut i: usize = 0;
        assert(labels.take(0) =~= Seq::empty());
        assert(views(reasons@) =~= Seq::empty());
        while i < self.rejections.len()
            invariant
                i <= self.rejections@.len(),
                all == views(self.rejections@),
                labels == all.map_values(|r: RejectionView| r.reason.label()),
                views(reasons@) == sorted_set(labels.take(i as int)),
            decreases self.rejections@.len() - i,
        {
            proof {
                assert(labels.take(i as int + 1).drop_last() =~= labels.take(i as int));
                assert(labels.take(i as int + 1).last() == all[i as int].reason.label());
                assert(all[i as int] == self.rejections@[i as int]@);
            }
            add_text(&mut reasons, self.rejections[i].reason.as_str());
            i += 1;
        }
        assert(labels.take(i as int) =~= labels);
        let mut summary: String = decimal_text(self.rejections.len() as u64);
        summary.append(" record(s) rejected (");
        summary.append(join(&reasons, ", ").as_str());
        summary.append("); for example: ");
        summary.append(self.rejections[0].detail.as_str());
        Some(summary)
    }
}

/// The summary of one or more rejections.
pub open spec fn summary_of(rejections: Seq<RejectionView>) -> Seq<char> {
    decimal(rejections.len()) + " record(s) rejected ("@ + joined(reasons_of(rejections), ", "@)
        + "); for example: "@ + rejections[0].detail
}

// ---------------------------------------------------------------------------
// JSON floods
// ---------------------------------------------------------------------------

/// How many objects open in `body` from `i` on, braces inside strings left out.
pub open spec fn objects_from(body: Seq<u8>, i: int, in_string: bool, escaped: bool) -> nat
    decreases body.len() - i,
{
    if i < 0 || i >= body.len() {
        0
    } else if in_string {
        if escaped {
            objects_from(body, i + 1, true, false)
        } else if body[i] == 0x5c {
            objects_from(body, i + 1, true, true)
        } else {
            objects_from(body, i + 1, body[i] != 0x22, false)
        }
    } else if body[i] == 0x22 {
        objects_from(body, i + 1, true, false)
    } else if body[i] == 0x7b {
        1 + objects_from(body, i + 1, false, false)
    } else {
        objects_from(body, i + 1, false, false)
    }
}

/// How many objects a body of `len` bytes may hold: one for eight bytes, and never fewer
/// than ten thousand or more than nine hundred thousand.
pub open spec fn object_allowance(len: nat) -> nat {
    if len / 8 < 10_000 {
        10_000
    } else if len / 8 > 900_000 {
        900_000
    } else {
        len / 8
    }
}

/// The refusal of a body that holds too many objects.
pub open spec fn flood_fault(len: nat) -> Fault {
    refused(
        "this "@ + decimal(len) + "-byte body holds more than "@ + decimal(object_allowance(len))
            + " JSON objects, which would parse into far more memory than it arrived as; split the batch"@,
    )
}

/// Refuses a JSON body that would parse into far more than it is, before anything is
/// allocated: `{},` is three bytes and the record it parses into is hundreds.
pub fn json_objects_within(body: &[u8]) -> (r: Result<(), Error>)
    ensures
        r is Ok <==> objects_from(body@, 0, false, false) <= object_allowance(body@.len()),
        r is Err ==> r->Err_0@ == flood_fault(body@.len()),
{
    let share: usize = body.len() / 8;
    let allowance: usize = if share < 10_000 {
        10_000
    } else if share > 900_000 {
        900_000
    } else {
        share
    };
    let mut objects: usize = 0;
    let mut in_string: bool = false;
    let mut escaped: bool = false;
    let mut i: usize = 0;
    while i < body.len()
        invariant
            i <= body@.len(),
            allowance == object_allowance(body@.len()),
            objects <= allowance,
            escaped ==> in_string,
            objects_from(body@, 0, false, false) == objects + objects_from(
                body@,
                i as int,
                in_string,
                escaped,
            ),
        decreases body@.len() - i,
    {
        let byte: u8 = body[i];
        if in_string {
            if escaped {
                escaped = false;
            } else if byte == 0x5c {
                escaped = true;
            } else if byte == 0x22 {
                in_string = false;
            }
        } else if byte == 0x22 {
            in_string = true;
        } else if byte == 0x7b {
            objects += 1;
            if objects > allowance {
                let mut message: String = "this ".to_owned();
                message.append(decimal_text(body.len() as u64).as_str());
                message.append("-byte body holds more than ");
                message.append(decimal_text(allowance as u64).as_str());
                message.append(
                    " JSON objects, which would parse into far more memory than it arrived as; split the batch",
                );
                return Err(Failure::BadRequest(message));
            }
        }
        i += 1;
    }
    Ok(())
}

// ---------------------------------------------------------------------------
// Laws
// ---------------------------------------------------------------------------

/// Once a charge goes over the budget, so does every later one.
pub proof fn law_over_budget_stays_over(used: usize, budget: usize, bytes: nat)
    requires
        used > budget,
    ensures
        charged(used, bytes) > budget,
{
}

/// What a request holds stays within its budget, whatever it decodes to, and a request that
/// is not over it holds everything that it was charged for.
pub proof fn law_what_is_held_is_bounded<V: Weighed>(
    tally: Tally<V>,
    outcome: Result<V, RejectionView>,
)
    requires
        tally.balanced(),
    ensures
        tally.with(outcome).balanced(),
        tally.with(outcome).budget == tally.budget,
        tally.over() ==> tally.with(outcome).over(),
        Tally::<V>::none(tally.budget).balanced(),
{
    let after = tally.with(outcome);
    match outcome {
        Ok(record) => {
            assert(tally.records.push(record).drop_last() =~= tally.records);
        },
        Err(rejection) => {
            assert(tally.rejections.push(rejection).drop_last() =~= tally.rejections);
        },
    }
}

/// The same for several records.
pub proof fn lemma_records_are_bounded<V: Weighed>(tally: Tally<V>, records: Seq<V>)
    requires
        tally.balanced(),
    ensures
        tally.with_records(records).balanced(),
        tally.with_records(records).budget == tally.budget,
        tally.over() ==> tally.with_records(records).over(),
    decreases records.len(),
{
    if records.len() > 0 {
        lemma_records_are_bounded(tally, records.drop_last());
        law_what_is_held_is_bounded(
            tally.with_records(records.drop_last()),
            Ok(records.last()),
        );
    }
}

/// A request that is not over its budget holds every record that was decoded.
pub proof fn law_within_budget_nothing_is_dropped<V: Weighed>(tally: Tally<V>, records: Seq<V>)
    requires
        !tally.with_records(records).over(),
    ensures
        !tally.over(),
        tally.with_records(records) == (Tally {
            records: tally.records + records,
            used: tally.with_records(records).used,
            ..tally
        }),
    decreases records.len(),
{
    if records.len() > 0 {
        let rest = records.drop_last();
        law_within_budget_nothing_is_dropped(tally, rest);
        assert((tally.records + rest).push(records.last()) =~= tally.records + records);
    } else {
        assert(tally.records + records =~= tally.records);
    }
}

/// Two requests that were charged the same, where the first may hold less.
pub proof fn lemma_with_agrees<V: Weighed>(
    small: Tally<V>,
    whole: Tally<V>,
    outcome: Result<V, RejectionView>,
)
    requires
        small.agrees(whole),
    ensures
        small.with(outcome).agrees(whole.with(outcome)),
{
}

/// The same for several records.
pub proof fn lemma_records_agree<V: Weighed>(small: Tally<V>, whole: Tally<V>, records: Seq<V>)
    requires
        small.agrees(whole),
    ensures
        small.with_records(records).agrees(whole.with_records(records)),
    decreases records.len(),
{
    if records.len() > 0 {
        lemma_records_agree(small, whole, records.drop_last());
        lemma_with_agrees(
            small.with_records(records.drop_last()),
            whole.with_records(records.drop_last()),
            Ok(records.last()),
        );
    }
}

/// Records that are added in two steps.
pub proof fn lemma_records_in_turn<V: Weighed>(tally: Tally<V>, first: Seq<V>, second: Seq<V>)
    ensures
        tally.with_records(first).with_records(second) == tally.with_records(first + second),
    decreases second.len(),
{
    if second.len() > 0 {
        lemma_records_in_turn(tally, first, second.drop_last());
        assert((first + second).drop_last() =~= first + second.drop_last());
    } else {
        assert(first + second =~= first);
    }
}

/// Braces inside a string open no objects.
pub proof fn law_braces_in_strings_are_not_objects(body: Seq<u8>, i: int)
    requires
        forall|k: int| i <= k < body.len() ==> #[trigger] body[k] != 0x22,
    ensures
        objects_from(body, i, true, false) == 0,
        objects_from(body, i, true, true) == 0,
    decreases body.len() - i,
{
    if 0 <= i < body.len() {
        law_braces_in_strings_are_not_objects(body, i + 1);
    }
}

} // verus!
