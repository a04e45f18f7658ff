//! Prometheus `remote_write`: snappy-compressed protobuf.
//!
//! ```proto
//! message WriteRequest { repeated TimeSeries timeseries = 1; }
//! message TimeSeries   { repeated Label labels = 1; repeated Sample samples = 2; }
//! message Label        { string name = 1; string value = 2; }
//! message Sample       { double value = 1; int64 timestamp = 2; }  // millis
//! ```
use vstd::prelude::*;

use crate::config::LimitsConfig;
use crate::decoded::{
    allowance, law_what_is_held_is_bounded, lemma_empty_tally, lemma_with_agrees, Decoded,
    RejectReason, Rejection, RejectionView, Tally,
};
use crate::error::{refused, Error, Failure, Fault};
use crate::labels::{
    inserted, is_metric_name, is_valid_metric_name, lookup, Labels, Pair, APP_LABEL,
    METRIC_NAME_LABEL,
};
use crate::protobuf::{
    field_at, folded, lemma_field_at, text_of, text_value, Payload, PayloadView, Reader, Step,
};
use crate::record::{MetricKind, MetricSample, SampleView};
use crate::streams::{check_labels, labels_rejected};
use crate::text::{debug_text, quoted, signed_decimal, signed_text};

verus! {

// ---------------------------------------------------------------------------
// Snappy
// ---------------------------------------------------------------------------

/// What `snap::raw::Decoder::decompress_vec` gives for a payload: the bytes, or the text
/// of its error.
pub uninterp spec fn snappy_decoded(bytes: Seq<u8>) -> Result<Seq<u8>, Seq<char>>;

/// `snap::raw::Decoder::decompress_vec`: the bytes of a raw snappy block, or the text of
/// the error. The answer depends on the payload alone.
#[verifier::external_body]
pub(crate) fn unsnap(bytes: &[u8]) -> (r: Result<Vec<u8>, String>)
    ensures
        snappy_decoded(bytes@) == (match r {
            Ok(decoded) => Ok::<Seq<u8>, Seq<char>>(decoded@),
            Err(message) => Err(message@),
        }),
{
    snap::raw::Decoder::new().decompress_vec(bytes).map_err(|error| error.to_string())
}

/// Whether bytes plausibly start a protobuf message: with a valid field key.
pub open spec fn protobuf_like(bytes: Seq<u8>) -> bool {
    bytes.len() > 0 && (bytes[0] % 8 == 0 || bytes[0] % 8 == 1 || bytes[0] % 8 == 2 || bytes[0] % 8
        == 5)
}

/// Whether bytes plausibly start a protobuf message.
pub fn looks_like_protobuf(bytes: &[u8]) -> (r: bool)
    ensures
        r == protobuf_like(bytes@),
{
    if bytes.len() == 0 {
        return false;
    }
    let wire: u8 = bytes[0] % 8;
    wire == 0 || wire == 1 || wire == 2 || wire == 5
}

/// The message of a request: what decompression gives, or else the request itself where
/// it looks like protobuf, since a few clients do not compress.
pub open spec fn payload_of(decoded: Result<Seq<u8>, Seq<char>>, sent: Seq<u8>) -> Result<
    Seq<u8>,
    Fault,
> {
    match decoded {
        Ok(bytes) => Ok(bytes),
        Err(message) => if protobuf_like(sent) {
            Ok(sent)
        } else {
            Err(refused("remote_write payload is not valid snappy: "@ + message))
        },
    }
}

/// The message of a request, from what decompression gave.
pub fn settle_payload(decoded: Result<Vec<u8>, String>, sent: &[u8]) -> (r: Result<Vec<u8>, Error>)
    ensures
        payload_of(
            match decoded {
                Ok(bytes) => Ok::<Seq<u8>, Seq<char>>(bytes@),
                Err(message) => Err(message@),
            },
            sent@,
        ) == (match r {
            Ok(bytes) => Ok::<Seq<u8>, Fault>(bytes@),
            Err(error) => Err(error@),
        }),
{
    match decoded {
        Ok(bytes) => Ok(bytes),
        Err(message) => {
            if looks_like_protobuf(sent) {
                let mut copy: Vec<u8> = Vec::new();
                let mut i: usize = 0;
                while i < sent.len()
                    invariant
                        i <= sent@.len(),
                        copy@ == sent@.take(i as int),
                    decreases sent@.len() - i,
                {
                    copy.push(sent[i]);
                    assert(copy@ =~= sent@.take(i as int + 1));
                    i += 1;
                }
                assert(sent@.take(i as int) =~= sent@);
                return Ok(copy);
            }
            let mut text: String = "remote_write payload is not valid snappy: ".to_owned();
            text.append(message.as_str());
            Err(Failure::BadRequest(text))
        },
    }
}

// ---------------------------------------------------------------------------
// Messages
// ---------------------------------------------------------------------------

pub open spec fn label_step() -> Step<Pair> {
    |out: Pair, number: u32, payload: PayloadView, at: int|
        match payload {
            Payload::Bytes(bytes) => if number == 1 {
                match text_value(bytes, at) {
                    Ok(text) => Ok((text, out.1)),
                    Err(fault) => Err(fault),
                }
            } else if number == 2 {
                match text_value(bytes, at) {
                    Ok(text) => Ok((out.0, text)),
                    Err(fault) => Err(fault),
                }
            } else {
                Ok(out)
            },
            _ => Ok(out),
        }
}

/// A `Label` message.
pub open spec fn label_message(bytes: Seq<u8>) -> Result<Pair, Fault> {
    folded(bytes, 0, (Seq::empty(), Seq::empty()), label_step())
}

/// A sample as it is sent: milliseconds, and the bits of its value.
pub type RawSample = (i64, u64);

/// The number that a varint stands for in two's complement.
pub open spec fn signed(raw: u64) -> i64 {
    if raw <= i64::MAX {
        raw as i64
    } else {
        (raw - 0x1_0000_0000_0000_0000) as i64
    }
}

fn signed_of(raw: u64) -> (n: i64)
    ensures
        n == signed(raw),
{
    if raw <= i64::MAX as u64 {
        raw as i64
    } else {
        -((u64::MAX - raw) as i64) - 1
    }
}

pub open spec fn sample_step() -> Step<RawSample> {
    |out: RawSample, number: u32, payload: PayloadView, at: int|
        match payload {
            Payload::Fixed64(bits) => if number == 1 {
                Ok((out.0, bits))
            } else {
                Ok(out)
            },
            Payload::Varint(raw) => if number == 2 {
                Ok((signed(raw), out.1))
            } else {
                Ok(out)
            },
            _ => Ok(out),
        }
}

/// A `Sample` message.
pub open spec fn sample_message(bytes: Seq<u8>) -> Result<RawSample, Fault> {
    folded(bytes, 0, (0i64, 0u64), sample_step())
}

/// A series as it is sent: its labels, and its samples in wire order.
pub struct RawSeries {
    pub labels: Seq<Pair>,
    pub samples: Seq<RawSample>,
}

pub open spec fn series_step() -> Step<RawSeries> {
    |out: RawSeries, number: u32, payload: PayloadView, at: int|
        match payload {
            Payload::Bytes(bytes) => if number == 1 {
                match label_message(bytes) {
                    Ok(label) => Ok(
                        RawSeries {
                            labels: if label.0.len() == 0 {
                                out.labels
                            } else {
                                inserted(out.labels, label.0, label.1)
                            },
                            ..out
                        },
                    ),
                    Err(fault) => Err(fault),
                }
            } else if number == 2 {
                match sample_message(bytes) {
                    Ok(sample) => Ok(RawSeries { samples: out.samples.push(sample), ..out }),
                    Err(fault) => Err(fault),
                }
            } else {
                Ok(out)
            },
            _ => Ok(out),
        }
}

/// A `TimeSeries` message.
pub open spec fn series_message(bytes: Seq<u8>) -> Result<RawSeries, Fault> {
    folded(bytes, 0, RawSeries { labels: Seq::empty(), samples: Seq::empty() }, series_step())
}

// ---------------------------------------------------------------------------
// Series and samples
// ---------------------------------------------------------------------------

/// Everything a `remote_write` decode needs beyond the payload.
#[derive(Debug, Clone, Copy)]
pub struct WriteContext<'a> {
    pub limits: &'a LimitsConfig,
    /// Used when a series carries no `app` label of its own.
    pub default_app: &'a str,
}

/// The application of a series that does not name one.
pub open spec fn fallback_app(labels: Seq<Pair>, default_app: Seq<char>) -> Seq<char> {
    match lookup(labels, "service_name"@) {
        Some(name) => name,
        None => match lookup(labels, "job"@) {
            Some(name) => name,
            None => default_app,
        },
    }
}

/// The labels with an application among them.
pub open spec fn with_app(labels: Seq<Pair>, default_app: Seq<char>) -> Seq<Pair> {
    if lookup(labels, APP_LABEL@) is Some {
        labels
    } else {
        inserted(labels, APP_LABEL@, fallback_app(labels, default_app))
    }
}

/// The series that is stored, or why none is. A name that is not valid is refused rather
/// than rewritten: the producer chose it.
pub open spec fn series_of(labels: Seq<Pair>, limits: LimitsConfig, default_app: Seq<char>) -> Result<
    Seq<Pair>,
    RejectionView,
> {
    match lookup(labels, METRIC_NAME_LABEL@) {
        None => Err(
            RejectionView {
                reason: RejectReason::MissingMetricName,
                detail: "time series has no __name__ label"@,
            },
        ),
        Some(name) => if !is_metric_name(name) {
            Err(
                RejectionView {
                    reason: RejectReason::InvalidMetricName,
                    detail: debug_text(name) + " is not a valid Prometheus metric name"@,
                },
            )
        } else {
            match labels_rejected(with_app(labels, default_app), "labels"@, limits) {
                Some(rejection) => Err(rejection),
                None => Ok(with_app(labels, default_app)),
            }
        },
    }
}

/// The nanoseconds of a millisecond timestamp from 2001 to 2100; nothing for another.
pub open spec fn nanos_of(millis: i64) -> Option<u64> {
    if 978_307_200_000 <= millis < 4_102_444_800_000 {
        Some((millis * 1_000_000) as u64)
    } else {
        None
    }
}

/// Converts a millisecond timestamp. The unit is not in doubt here, so an implausible
/// value is refused rather than guessed at.
pub fn millis_to_nanos(millis: i64) -> (nanos: Option<u64>)
    ensures
        nanos == nanos_of(millis),
{
    if 978_307_200_000 <= millis && millis < 4_102_444_800_000 {
        Some(millis as u64 * 1_000_000)
    } else {
        None
    }
}

/// What becomes of one sample of a series.
pub open spec fn sample_of(series: Seq<Pair>, sample: RawSample) -> Result<SampleView, RejectionView> {
    match nanos_of(sample.0) {
        Some(timestamp_nanos) => Ok(
            SampleView { timestamp_nanos, series, value: sample.1, kind: MetricKind::Unknown },
        ),
        None => Err(
            RejectionView {
                reason: RejectReason::InvalidTimestamp,
                detail: "sample timestamp "@ + signed_decimal(sample.0 as int)
                    + " is not a plausible time"@,
            },
        ),
    }
}

/// A request after the first `n` samples of a series. A series that is refused has all of
/// its samples refused, for the same reason.
pub open spec fn samples_tally(
    tally: Tally<SampleView>,
    series: Result<Seq<Pair>, RejectionView>,
    samples: Seq<RawSample>,
    n: nat,
) -> Tally<SampleView>
    decreases n,
{
    if n == 0 || n > samples.len() {
        tally
    } else {
        samples_tally(tally, series, samples, (n - 1) as nat).with(
            match series {
                Ok(labels) => sample_of(labels, samples[n - 1]),
                Err(rejection) => Err(rejection),
            },
        )
    }
}

/// A request after one more series.
pub open spec fn with_series(
    tally: Tally<SampleView>,
    raw: RawSeries,
    limits: LimitsConfig,
    default_app: Seq<char>,
) -> Tally<SampleView> {
    samples_tally(
        tally,
        series_of(raw.labels, limits, default_app),
        raw.samples,
        raw.samples.len(),
    )
}

pub open spec fn write_step(limits: LimitsConfig, default_app: Seq<char>) -> Step<
    Tally<SampleView>,
> {
    |out: Tally<SampleView>, number: u32, payload: PayloadView, at: int|
        match payload {
            Payload::Bytes(bytes) => if number == 1 {
                match series_message(bytes) {
                    Ok(raw) => Ok(with_series(out, raw, limits, default_app)),
                    Err(fault) => Err(fault),
                }
            } else {
                Ok(out)
            },
            _ => Ok(out),
        }
}

/// A `WriteRequest` message, in a request that may hold `budget` bytes.
pub open spec fn write_message(
    bytes: Seq<u8>,
    limits: LimitsConfig,
    default_app: Seq<char>,
    budget: usize,
) -> Result<Tally<SampleView>, Fault> {
    folded(bytes, 0, Tally::none(budget), write_step(limits, default_app))
}

/// What a decode came to, as contracts speak of it.
pub open spec fn tally_of(r: Result<Decoded<MetricSample>, Error>) -> Result<
    Tally<SampleView>,
    Fault,
> {
    match r {
        Ok(decoded) => Ok(decoded.tally()),
        Err(error) => Err(error@),
    }
}

/// Decompresses and decodes a `remote_write` request.
pub fn decode(compressed: &[u8], ctx: WriteContext<'_>) -> (r: Result<Decoded<MetricSample>, Error>)
    ensures
        tally_of(r) == (match payload_of(snappy_decoded(compressed@), compressed@) {
            Ok(bytes) => write_message(
                bytes,
                *ctx.limits,
                ctx.default_app@,
                allowance(*ctx.limits),
            ),
            Err(fault) => Err(fault),
        }),
{
    match settle_payload(unsnap(compressed), compressed) {
        Ok(bytes) => decode_request(bytes.as_slice(), ctx),
        Err(error) => Err(error),
    }
}

/// Decodes a `WriteRequest`.
pub fn decode_request(bytes: &[u8], ctx: WriteContext<'_>) -> (r: Result<
    Decoded<MetricSample>,
    Error,
>)
    ensures
        tally_of(r) == write_message(
            bytes@,
            *ctx.limits,
            ctx.default_app@,
            allowance(*ctx.limits),
        ),
{
    let ghost step = write_step(*ctx.limits, ctx.default_app@);
    let mut reader: Reader = Reader::new(bytes);
    let mut decoded: Decoded<MetricSample> = Decoded::bounded(ctx.limits);
    proof {
        lemma_empty_tally(decoded);
    }
    loop
        invariant
            step == write_step(*ctx.limits, ctx.default_app@),
            reader@.bytes == bytes@,
            write_message(
                bytes@,
                *ctx.limits,
                ctx.default_app@,
                allowance(*ctx.limits),
            ) == folded(
                bytes@,
                reader@.pos,
                decoded.tally(),
                step,
            ),
        decreases bytes@.len() - reader@.pos,
    {
        let (number, payload): (u32, Payload<&[u8]>) = match reader.field() {
            Ok(Some(field)) => field,
            Ok(None) => {
                return Ok(decoded);
            },
            Err(error) => {
                return Err(error);
            },
        };
        match payload {
            Payload::Bytes(nested) => {
                if number == 1 {
                    match read_timeseries(nested, ctx, &mut decoded) {
                        Some(error) => {
                            return Err(error);
                        },
                        None => {},
                    }
                }
            },
            _ => {},
        }
    }
}

fn read_label(bytes: &[u8]) -> (r: Result<(String, String), Error>)
    ensures
        label_message(bytes@) == (match r {
            Ok(label) => Ok::<Pair, Fault>((label.0@, label.1@)),
            Err(error) => Err(error@),
        }),
{
    let mut reader: Reader = Reader::new(bytes);
    let mut name: String = String::new();
    let mut value: String = String::new();
    assert(name@ =~= Seq::empty());
    assert(value@ =~= Seq::empty());
    loop
        invariant
            reader@.bytes == bytes@,
            label_message(bytes@) == folded(
                bytes@,
                reader@.pos,
                (name@, value@),
                label_step(),
            ),
        decreases bytes@.len() - reader@.pos,
    {
        let (number, payload): (u32, Payload<&[u8]>) = match reader.field() {
            Ok(Some(field)) => field,
            Ok(None) => {
                return Ok((name, value));
            },
            Err(error) => {
                return Err(error);
            },
        };
        match payload {
            Payload::Bytes(nested) => {
                if number == 1 || number == 2 {
                    match text_of(nested, reader.position()) {
                        Ok(text) => {
                            if number == 1 {
                                name = text;
                            } else {
                                value = text;
                            }
                        },
                        Err(error) => {
                            return Err(error);
                        },
                    }
                }
            },
            _ => {},
        }
    }
}

fn read_sample(bytes: &[u8]) -> (r: Result<(i64, u64), Error>)
    ensures
        sample_message(bytes@) == (match r {
            Ok(sample) => Ok::<RawSample, Fault>(sample),
            Err(error) => Err(error@),
        }),
{
    let mut reader: Reader = Reader::new(bytes);
    let mut millis: i64 = 0;
    let mut bits: u64 = 0;
    loop
        invariant
            reader@.bytes == bytes@,
            sample_message(bytes@) == folded(
                bytes@,
                reader@.pos,
                (millis, bits),
                sample_step(),
            ),
        decreases bytes@.len() - reader@.pos,
    {
        let (number, payload): (u32, Payload<&[u8]>) = match reader.field() {
            Ok(Some(field)) => field,
            Ok(None) => {
                return Ok((millis, bits));
            },
            Err(error) => {
                return Err(error);
            },
        };
        match payload {
            Payload::Fixed64(value) => {
                if number == 1 {
                    bits = value;
                }
            },
            Payload::Varint(raw) => {
                if number == 2 {
                    millis = signed_of(raw);
                }
            },
            _ => {},
        }
    }
}

/// Reads a series and adds what becomes of its samples; gives the refusal where it cannot
/// be read.
fn read_timeseries(bytes: &[u8], ctx: WriteContext<'_>, decoded: &mut Decoded<MetricSample>) -> (refusal:
    Option<Error>)
    ensures
        match series_message(bytes@) {
            Ok(raw) => refusal is None && final(decoded).tally() == with_series(
                old(decoded).tally(),
                raw,
                *ctx.limits,
                ctx.default_app@,
            ),
            Err(fault) => refusal is Some && refusal->Some_0@ == fault,
        },
{
    let mut reader: Reader = Reader::new(bytes);
    let mut labels: Labels = Labels::new();
    let mut samples: Vec<(i64, u64)> = Vec::new();
    assert(samples@ =~= Seq::empty());
    let mut done: bool = false;
    while !done
        invariant
            reader@.bytes == bytes@,
            !done ==> series_message(bytes@) == folded(
                bytes@,
                reader@.pos,
                RawSeries { labels: labels@, samples: samples@ },
                series_step(),
            ),
            done ==> series_message(bytes@) == Ok::<RawSeries, Fault>(
                RawSeries { labels: labels@, samples: samples@ },
            ),
            decoded.tally() == old(decoded).tally(),
        decreases
                if done {
                    0
                } else {
                    1int
                },
                bytes@.len() - reader@.pos,
    {
        match reader.field() {
            Ok(Some((number, payload))) => match payload {
                Payload::Bytes(nested) => {
                    if number == 1 {
                        match read_label(nested) {
                            Ok(label) => {
                                if !label.0.as_str().is_empty() {
                                    labels.insert(label.0.as_str(), label.1.as_str());
                                }
                            },
                            Err(error) => {
                                return Some(error);
                            },
                        }
                    } else if number == 2 {
                        match read_sample(nested) {
                            Ok(sample) => samples.push(sample),
                            Err(error) => {
                                return Some(error);
                            },
                        }
                    }
                },
                _ => {},
            },
            Ok(None) => {
                done = true;
            },
            Err(error) => {
                return Some(error);
            },
        }
    }
    let ghost sent = labels@;
    let ghost start = decoded.tally();
    let series: Result<Labels, Rejection> = build_series(labels, ctx);
    let ghost target = series_of(sent, *ctx.limits, ctx.default_app@);
    let mut i: usize = 0;
    while i < samples.len()
        invariant
            i <= samples@.len(),
            target == (match series {
                Ok(labels) => Ok::<Seq<Pair>, RejectionView>(labels@),
                Err(rejection) => Err(rejection@),
            }),
            decoded.tally() == samples_tally(start, target, samples@, i as nat),
        decreases samples@.len() - i,
    {
        let (millis, bits): (i64, u64) = samples[i];
        match &series {
            Err(rejection) => decoded.push(Err(rejection.clone())),
            Ok(labels) => match millis_to_nanos(millis) {
                Some(timestamp_nanos) => decoded.push(
                    Ok(
                        MetricSample {
                            timestamp_nanos,
                            series: labels.clone(),
                            value: bits,
                            kind: MetricKind::Unknown,
                        },
                    ),
                ),
                None => {
                    let mut detail: String = "sample timestamp ".to_owned();
                    detail.append(signed_text(millis).as_str());
                    detail.append(" is not a plausible time");
                    decoded.push(Err(Rejection::new(RejectReason::InvalidTimestamp, detail)))
                },
            },
        }
        i += 1;
    }
    None
}

fn build_series(labels: Labels, ctx: WriteContext<'_>) -> (r: Result<Labels, Rejection>)
    ensures
        series_of(labels@, *ctx.limits, ctx.default_app@) == (match r {
            Ok(series) => Ok::<Seq<Pair>, RejectionView>(series@),
            Err(rejection) => Err(rejection@),
        }),
{
    match labels.get(METRIC_NAME_LABEL) {
        None => {
            return Err(
                Rejection::new(
                    RejectReason::MissingMetricName,
                    "time series has no __name__ label".to_owned(),
                ),
            );
        },
        Some(name) => {
            if !is_valid_metric_name(name) {
                let mut detail: String = quoted(name);
                detail.append(" is not a valid Prometheus metric name");
                return Err(Rejection::new(RejectReason::InvalidMetricName, detail));
            }
        },
    }
    let mut series: Labels = labels.clone();
    if labels.get(APP_LABEL).is_none() {
        let app: &str = match labels.get("service_name") {
            Some(name) => name,
            None => match labels.get("job") {
                Some(name) => name,
                None => ctx.default_app,
            },
        };
        series.insert(APP_LABEL, app);
    }
    match check_labels(&series, "labels", ctx.limits) {
        Some(rejection) => Err(rejection),
        None => Ok(series),
    }
}

// ---------------------------------------------------------------------------
// Laws
// ---------------------------------------------------------------------------

/// Nothing is lost in silence: every sample of a series is kept or refused with a reason,
/// unless the request is over its budget and refused as a whole. What is held stays within
/// the budget either way.
pub proof fn law_every_sample_is_accounted_for(
    tally: Tally<SampleView>,
    raw: RawSeries,
    limits: LimitsConfig,
    default_app: Seq<char>,
)
    requires
        tally.balanced(),
    ensures
        ({
            let after = with_series(tally, raw, limits, default_app);
            &&& after.balanced()
            &&& after.budget == tally.budget
            &&& tally.over() ==> after.over()
            &&& !after.over() ==> after.total() == tally.total() + raw.samples.len()
        }),
{
    lemma_samples_total(
        tally,
        series_of(raw.labels, limits, default_app),
        raw.samples,
        raw.samples.len(),
    );
}

proof fn lemma_samples_total(
    tally: Tally<SampleView>,
    series: Result<Seq<Pair>, RejectionView>,
    samples: Seq<RawSample>,
    n: nat,
)
    requires
        n <= samples.len(),
        tally.balanced(),
    ensures
        ({
            let after = samples_tally(tally, series, samples, n);
            &&& after.balanced()
            &&& after.budget == tally.budget
            &&& tally.over() ==> after.over()
            &&& !after.over() ==> after.total() == tally.total() + n
        }),
    decreases n,
{
    if n > 0 {
        lemma_samples_total(tally, series, samples, (n - 1) as nat);
        law_what_is_held_is_bounded(
            samples_tally(tally, series, samples, (n - 1) as nat),
            match series {
                Ok(labels) => sample_of(labels, samples[n - 1]),
                Err(rejection) => Err(rejection),
            },
        );
    }
}

/// Every series that is stored names its application.
pub proof fn law_app_is_always_there(
    labels: Seq<Pair>,
    limits: LimitsConfig,
    default_app: Seq<char>,
)
    requires
        crate::labels::sorted(labels),
    ensures
        match series_of(labels, limits, default_app) {
            Ok(series) => lookup(series, APP_LABEL@) is Some,
            Err(_) => true,
        },
{
    crate::labels::law_insert_then_get(
        labels,
        APP_LABEL@,
        fallback_app(labels, default_app),
        APP_LABEL@,
    );
}

/// A request that is not over its budget comes to what it would come to without one, and it
/// is refused for what is wrong with it whatever its budget.
pub proof fn law_a_budget_only_drops(
    bytes: Seq<u8>,
    limits: LimitsConfig,
    default_app: Seq<char>,
    budget: usize,
)
    ensures
        match (
            write_message(bytes, limits, default_app, budget),
            write_message(bytes, limits, default_app, usize::MAX),
        ) {
            (Ok(small), Ok(whole)) => small.agrees(whole),
            (Err(a), Err(b)) => a == b,
            _ => false,
        },
{
    lemma_write_agrees(
        bytes,
        0,
        Tally::none(budget),
        Tally::none(usize::MAX),
        limits,
        default_app,
    );
}

proof fn lemma_write_agrees(
    bytes: Seq<u8>,
    at: int,
    small: Tally<SampleView>,
    whole: Tally<SampleView>,
    limits: LimitsConfig,
    default_app: Seq<char>,
)
    requires
        small.agrees(whole),
    ensures
        match (
            folded(bytes, at, small, write_step(limits, default_app)),
            folded(bytes, at, whole, write_step(limits, default_app)),
        ) {
            (Ok(small), Ok(whole)) => small.agrees(whole),
            (Err(a), Err(b)) => a == b,
            _ => false,
        },
    decreases bytes.len() - at,
{
    let step = write_step(limits, default_app);
    lemma_field_at(bytes, at);
    if let Ok((Some((number, payload)), next)) = field_at(bytes, at) {
        if let Payload::Bytes(nested) = payload {
            if number == 1 {
                if let Ok(raw) = series_message(nested) {
                    let series = series_of(raw.labels, limits, default_app);
                    lemma_samples_agree(small, whole, series, raw.samples, raw.samples.len());
                }
            }
        }
        match (step(small, number, payload, next), step(whole, number, payload, next)) {
            (Ok(s1), Ok(w1)) => {
                lemma_write_agrees(bytes, next, s1, w1, limits, default_app);
            },
            _ => {},
        }
    }
}

proof fn lemma_samples_agree(
    small: Tally<SampleView>,
    whole: Tally<SampleView>,
    series: Result<Seq<Pair>, RejectionView>,
    samples: Seq<RawSample>,
    n: nat,
)
    requires
        small.agrees(whole),
    ensures
        samples_tally(small, series, samples, n).agrees(
            samples_tally(whole, series, samples, n),
        ),
    decreases n,
{
    if 0 < n <= samples.len() {
        lemma_samples_agree(small, whole, series, samples, (n - 1) as nat);
        lemma_with_agrees(
            samples_tally(small, series, samples, (n - 1) as nat),
            samples_tally(whole, series, samples, (n - 1) as nat),
            match series {
                Ok(labels) => sample_of(labels, samples[n - 1]),
                Err(rejection) => Err(rejection),
            },
        );
    }
}

} // verus!
