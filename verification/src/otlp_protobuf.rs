//! OTLP protobuf, read into the same types as OTLP JSON.
//!
//! The conversion of what is read is shared, so a protobuf batch and the equivalent JSON
//! batch cannot disagree about anything except how they arrived. Field numbers are those
//! of `opentelemetry-proto`. Of an exponential histogram or a summary, which are not stored,
//! only that it is there is read, so that it can be refused; unknown fields are skipped.
use vstd::prelude::*;

use crate::error::{outcome, outcome_all, refused, Error, Failure, Fault};
use crate::logs::{
    LogRecordJson, LogRecordView, LogsData, ResourceLogs, ResourceLogsView, ScopeLogs,
    ScopeLogsView,
};
use crate::otlp::{
    lemma_any_view, signed, signed_of, AnyValue, AnyView, ArrayValue, FlexEnum, FlexEnumView,
    FlexI64, FlexU64, InstrumentationScope, KeyValue, KeyView, KvList, Numeral, NumeralView,
    Resource, ScopeView,
};
use crate::otlp_metrics::{
    counts_view, HistogramData, HistogramPoint, HistogramView, HistogramsView, MetricJson,
    MetricView, MetricsData, NumberData, NumberPoint, PointView, ResourceMetrics,
    ResourceMetricsView, ScopeMetrics, ScopeMetricsView, SumData, SumView,
};
use crate::protobuf::{
    fixed64_at, folded, text_of, text_value, wire_fault, Payload, PayloadView, Reader, Step,
};
use crate::text::{decimal, decimal_text, lemma_views_push, string_of, views};
use crate::traces::{
    EventJsonView, ResourceSpans, ResourceSpansView, ScopeSpans, ScopeSpansView, SpanEventJson,
    SpanJson, SpanJsonView, StatusJson, StatusView, TracesData,
};

verus! {

/// How deep an attribute value may nest. Values nest once or twice in practice.
pub const MAX_VALUE_DEPTH: u32 = 16;

/// Elements that one request may hold in any single repeated field.
pub const MAX_REPEATED: usize = 100_000;

// ---------------------------------------------------------------------------
// Doubles
// ---------------------------------------------------------------------------

/// How doubles are written.
pub type Numerals = spec_fn(u64) -> NumeralView;

/// How bucket bounds are written.
pub type Bounds = spec_fn(u64) -> Seq<char>;

/// Whether `render` writes every double, and each in one way.
pub open spec fn renders<R: Fn(u64) -> Numeral>(render: &R) -> bool {
    &&& forall|bits: u64| render.requires((bits,))
    &&& forall|bits: u64, one: Numeral, other: Numeral|
        render.ensures((bits,), one) && render.ensures((bits,), other) ==> one@ == other@
}

/// What `render` writes for a double.
pub open spec fn numerals<R: Fn(u64) -> Numeral>(render: &R) -> Numerals {
    |bits: u64| (choose|numeral: Numeral| render.ensures((bits,), numeral))@
}

/// Whether `bound` writes every bucket bound, and each in one way.
pub open spec fn writes<B: Fn(u64) -> String>(bound: &B) -> bool {
    &&& forall|bits: u64| bound.requires((bits,))
    &&& forall|bits: u64, one: String, other: String|
        bound.ensures((bits,), one) && bound.ensures((bits,), other) ==> one@ == other@
}

/// What `bound` writes for a bucket bound.
pub open spec fn bounds<B: Fn(u64) -> String>(bound: &B) -> Bounds {
    |bits: u64| (choose|text: String| bound.ensures((bits,), text))@
}

// ---------------------------------------------------------------------------
// Ids and bytes as text
// ---------------------------------------------------------------------------

/// The hexadecimal digit of a number below sixteen.
pub open spec fn hex_char(n: int) -> char {
    if n < 10 {
        (('0' as u8) + n) as u8 as char
    } else {
        (('a' as u8) + (n - 10)) as u8 as char
    }
}

/// Bytes in hexadecimal, in small letters.
pub open spec fn hex_text(bytes: Seq<u8>) -> Seq<char> {
    Seq::new(
        2 * bytes.len(),
        |i: int|
            if i % 2 == 0 {
                hex_char((bytes[i / 2] / 16) as int)
            } else {
                hex_char((bytes[i / 2] % 16) as int)
            },
    )
}

fn hex_digit(n: u8) -> (c: char)
    requires
        n < 16,
    ensures
        c == hex_char(n as int),
{
    if n < 10 {
        (48u8 + n) as char
    } else {
        (87u8 + n) as char
    }
}

/// Bytes in hexadecimal. Trace and span ids are raw bytes here and hexadecimal texts in
/// JSON; what follows expects the JSON spelling.
pub fn hex(bytes: &[u8]) -> (text: String)
    ensures
        text@ == hex_text(bytes@),
{
    let mut out: Vec<char> = Vec::new();
    let mut i: usize = 0;
    while i < bytes.len()
        invariant
            i <= bytes@.len(),
            out@.len() == 2 * i,
            forall|j: int| 0 <= j < 2 * i ==> out@[j] == hex_text(bytes@)[j],
        decreases bytes@.len() - i,
    {
        let byte: u8 = bytes[i];
        out.push(hex_digit(byte / 16));
        out.push(hex_digit(byte % 16));
        assert((2 * i) / 2 == i && (2 * i + 1) / 2 == i);
        i += 1;
    }
    assert(out@ =~= hex_text(bytes@));
    string_of(out.as_slice())
}

/// The character of a six-bit group in base64.
pub open spec fn base64_char(n: int) -> char {
    if n < 26 {
        (('A' as u8) + n) as u8 as char
    } else if n < 52 {
        (('a' as u8) + (n - 26)) as u8 as char
    } else if n < 62 {
        (('0' as u8) + (n - 52)) as u8 as char
    } else if n == 62 {
        '+'
    } else {
        '/'
    }
}

/// Bytes in base64, padded.
pub open spec fn base64_text(bytes: Seq<u8>) -> Seq<char>
    decreases bytes.len(),
{
    if bytes.len() == 0 {
        Seq::empty()
    } else if bytes.len() == 1 {
        seq![
            base64_char((bytes[0] / 4) as int),
            base64_char((bytes[0] % 4) * 16),
            '=',
            '=',
        ]
    } else if bytes.len() == 2 {
        seq![
            base64_char((bytes[0] / 4) as int),
            base64_char((bytes[0] % 4) * 16 + bytes[1] / 16),
            base64_char((bytes[1] % 16) * 4),
            '=',
        ]
    } else {
        seq![
            base64_char((bytes[0] / 4) as int),
            base64_char((bytes[0] % 4) * 16 + bytes[1] / 16),
            base64_char((bytes[1] % 16) * 4 + bytes[2] / 64),
            base64_char((bytes[2] % 64) as int),
        ] + base64_text(bytes.skip(3))
    }
}

fn base64_digit(n: u8) -> (c: char)
    requires
        n < 64,
    ensures
        c == base64_char(n as int),
{
    if n < 26 {
        (65u8 + n) as char
    } else if n < 52 {
        (97u8 + (n - 26)) as char
    } else if n < 62 {
        (48u8 + (n - 52)) as char
    } else if n == 62 {
        '+'
    } else {
        '/'
    }
}

/// Bytes in base64 with padding, which is what OTLP JSON puts in `bytesValue`.
pub fn base64(bytes: &[u8]) -> (text: String)
    ensures
        text@ == base64_text(bytes@),
{
    let ghost goal = base64_text(bytes@);
    let count: usize = bytes.len();
    let mut out: Vec<char> = Vec::new();
    let mut i: usize = 0;
    assert(bytes@.skip(0) =~= bytes@);
    assert(out@ + goal =~= goal);
    while count - i >= 3
        invariant
            count == bytes@.len(),
            i <= count,
            goal == out@ + base64_text(bytes@.skip(i as int)),
        decreases count - i,
    {
        let a: u8 = bytes[i];
        let b: u8 = bytes[i + 1];
        let c: u8 = bytes[i + 2];
        let ghost done = out@;
        let ghost rest = bytes@.skip(i as int);
        out.push(base64_digit(a / 4));
        out.push(base64_digit((a % 4) * 16 + b / 16));
        out.push(base64_digit((b % 16) * 4 + c / 64));
        out.push(base64_digit(c % 64));
        proof {
            assert(rest[0] == a && rest[1] == b && rest[2] == c);
            assert(rest.skip(3) =~= bytes@.skip(i as int + 3));
            assert(out@ + base64_text(rest.skip(3)) =~= done + base64_text(rest));
        }
        i += 3;
    }
    let ghost rest = bytes@.skip(i as int);
    let ghost done = out@;
    if count - i == 2 {
        let a: u8 = bytes[i];
        let b: u8 = bytes[i + 1];
        assert(rest[0] == a && rest[1] == b);
        out.push(base64_digit(a / 4));
        out.push(base64_digit((a % 4) * 16 + b / 16));
        out.push(base64_digit((b % 16) * 4));
        out.push('=');
    } else if count - i == 1 {
        let a: u8 = bytes[i];
        assert(rest[0] == a);
        out.push(base64_digit(a / 4));
        out.push(base64_digit((a % 4) * 16));
        out.push('=');
        out.push('=');
    }
    assert(out@ =~= done + base64_text(rest));
    string_of(out.as_slice())
}

// ---------------------------------------------------------------------------
// Repeated fields
// ---------------------------------------------------------------------------

/// The refusal of a repeated field that has grown past what any producer sends. The
/// request is refused rather than cut short.
pub open spec fn too_wide(field: Seq<char>) -> Fault {
    refused(
        field + " exceeds "@ + decimal(MAX_REPEATED as nat)
            + " elements in one request; split the batch"@,
    )
}

fn too_wide_error(field: &str) -> (error: Error)
    ensures
        error@ == too_wide(field@),
{
    let mut message: String = field.to_owned();
    message.append(" exceeds ");
    message.append(decimal_text(MAX_REPEATED as u64).as_str());
    message.append(" elements in one request; split the batch");
    Failure::BadRequest(message)
}

/// A list with one more element, refused where it is full.
pub open spec fn pushed<T>(list: Seq<T>, item: Result<T, Fault>, field: Seq<char>) -> Result<
    Seq<T>,
    Fault,
> {
    if list.len() >= MAX_REPEATED {
        Err(too_wide(field))
    } else {
        match item {
            Ok(item) => Ok(list.push(item)),
            Err(fault) => Err(fault),
        }
    }
}

// ---------------------------------------------------------------------------
// common.proto
// ---------------------------------------------------------------------------

pub open spec fn too_deep() -> Fault {
    refused("attribute value nested deeper than "@ + decimal(MAX_VALUE_DEPTH as nat) + " levels"@)
}

/// How many levels a value at `depth` may still nest.
pub open spec fn room(depth: int) -> nat {
    if depth > MAX_VALUE_DEPTH {
        0
    } else {
        (MAX_VALUE_DEPTH + 1 - depth) as nat
    }
}

/// An `AnyValue` message at a depth.
pub open spec fn any_message(bytes: Seq<u8>, depth: int, num: Numerals) -> Result<
    AnyView,
    Fault,
>
    decreases room(depth), 2nat,
{
    if depth > MAX_VALUE_DEPTH {
        Err(too_deep())
    } else {
        folded(bytes, 0, AnyView::none(), any_step(depth, num))
    }
}

/// A field of an `AnyValue`.
pub open spec fn any_step(depth: int, num: Numerals) -> Step<AnyView>
    decreases room(depth), 1nat,
{
    |out: AnyView, number: u32, payload: PayloadView, at: int|
        match payload {
            Payload::Bytes(bytes) => if number == 1 {
                match text_value(bytes, at) {
                    Ok(text) => Ok(AnyView { string_value: Some(text), ..out }),
                    Err(fault) => Err(fault),
                }
            } else if number == 5 {
                match folded(bytes, 0, Seq::empty(), array_step(depth, num)) {
                    Ok(values) => Ok(AnyView { array_value: Some(values), ..out }),
                    Err(fault) => Err(fault),
                }
            } else if number == 6 {
                match folded(bytes, 0, Seq::empty(), pairs_step(depth, num)) {
                    Ok(values) => Ok(AnyView { kvlist_value: Some(values), ..out }),
                    Err(fault) => Err(fault),
                }
            } else if number == 7 {
                Ok(AnyView { bytes_value: Some(base64_text(bytes)), ..out })
            } else {
                Ok(out)
            },
            Payload::Varint(value) => if number == 2 {
                Ok(AnyView { bool_value: Some(value != 0), ..out })
            } else if number == 3 {
                Ok(AnyView { int_value: Some(signed_of(value)), ..out })
            } else {
                Ok(out)
            },
            Payload::Fixed64(value) => if number == 4 {
                Ok(AnyView { double_value: Some(num(value)), ..out })
            } else {
                Ok(out)
            },
            Payload::Fixed32 => Ok(out),
        }
}

/// A field of an `ArrayValue` whose values stand one level below `depth`.
pub open spec fn array_step(depth: int, num: Numerals) -> Step<Seq<AnyView>>
    decreases room(depth), 0nat,
{
    |out: Seq<AnyView>, number: u32, payload: PayloadView, at: int|
        match payload {
            Payload::Bytes(bytes) => if number == 1 && depth <= MAX_VALUE_DEPTH {
                pushed(out, any_message(bytes, depth + 1, num), "values"@)
            } else {
                Ok(out)
            },
            _ => Ok(out),
        }
}

/// A field of a `KeyValueList` whose entries stand one level below `depth`.
pub open spec fn pairs_step(depth: int, num: Numerals) -> Step<Seq<KeyView>>
    decreases room(depth), 0nat,
{
    |out: Seq<KeyView>, number: u32, payload: PayloadView, at: int|
        match payload {
            Payload::Bytes(bytes) => if number == 1 && depth <= MAX_VALUE_DEPTH {
                pushed(out, key_message(bytes, depth + 1, num), "values"@)
            } else {
                Ok(out)
            },
            _ => Ok(out),
        }
}

/// A `KeyValue` message at a depth.
pub open spec fn key_message(bytes: Seq<u8>, depth: int, num: Numerals) -> Result<
    KeyView,
    Fault,
>
    decreases room(depth), 4nat,
{
    folded(bytes, 0, KeyView { key: Seq::empty(), value: None }, key_step(depth, num))
}

/// A field of a `KeyValue`.
pub open spec fn key_step(depth: int, num: Numerals) -> Step<KeyView>
    decreases room(depth), 3nat,
{
    |out: KeyView, number: u32, payload: PayloadView, at: int|
        match payload {
            Payload::Bytes(bytes) => if number == 1 {
                match text_value(bytes, at) {
                    Ok(text) => Ok(KeyView { key: text, ..out }),
                    Err(fault) => Err(fault),
                }
            } else if number == 2 {
                match any_message(bytes, depth + 1, num) {
                    Ok(value) => Ok(KeyView { value: Some(value), ..out }),
                    Err(fault) => Err(fault),
                }
            } else {
                Ok(out)
            },
            _ => Ok(out),
        }
}

/// An `AnyValue` message at a depth.
pub fn any_value<R: Fn(u64) -> Numeral>(bytes: &[u8], depth: u32, render: &R) -> (r: Result<
    AnyValue,
    Error,
>)
    requires
        renders(render),
    ensures
        outcome(r) == any_message(bytes@, depth as int, numerals(render)),
    decreases room(depth as int), 2nat,
{
    if depth > MAX_VALUE_DEPTH {
        let mut message: String = "attribute value nested deeper than ".to_owned();
        message.append(decimal_text(MAX_VALUE_DEPTH as u64).as_str());
        message.append(" levels");
        return Err(Failure::BadRequest(message));
    }
    let ghost step = any_step(depth as int, numerals(render));
    let mut reader: Reader = Reader::new(bytes);
    let mut value: AnyValue = AnyValue::default();
    #[verifier::loop_isolation(false)]
    loop
        invariant
            reader@.bytes == bytes@,
            any_message(bytes@, depth as int, numerals(render)) == folded(
                bytes@,
                reader@.pos,
                value@,
                step,
            ),
        decreases bytes@.len() - reader@.pos,
    {
        let ghost before = value@;
        let field: Option<(u32, Payload<&[u8]>)> = match reader.field() {
            Ok(field) => field,
            Err(error) => {
                return Err(error);
            },
        };
        let (number, payload): (u32, Payload<&[u8]>) = match field {
            Some(field) => field,
            None => {
                return Ok(value);
            },
        };
        match payload {
            Payload::Bytes(nested) => {
                if number == 1 {
                    match text_of(nested, reader.position()) {
                        Ok(text) => {
                            value.string_value = Some(text);
                            proof {
                                lemma_any_view(value);
                            }
                        },
                        Err(error) => {
                            return Err(error);
                        },
                    }
                } else if number == 5 {
                    match array_values(nested, depth, render) {
                        Ok(values) => {
                            value.array_value = Some(ArrayValue { values });
                            proof {
                                lemma_any_view(value);
                            }
                        },
                        Err(error) => {
                            return Err(error);
                        },
                    }
                } else if number == 6 {
                    match pair_values(nested, depth, render) {
                        Ok(values) => {
                            value.kvlist_value = Some(KvList { values });
                            proof {
                                lemma_any_view(value);
                            }
                        },
                        Err(error) => {
                            return Err(error);
                        },
                    }
                } else if number == 7 {
                    value.bytes_value = Some(base64(nested));
                }
            },
            Payload::Varint(sent) => {
                if number == 2 {
                    value.bool_value = Some(sent != 0);
                } else if number == 3 {
                    value.int_value = FlexI64::Number(signed(sent));
                }
            },
            Payload::Fixed64(bits) => {
                if number == 4 {
                    let numeral: Numeral = render(bits);
                    assert(numeral@ == numerals(render)(bits));
                    value.double_value = Some(numeral);
                }
            },
            Payload::Fixed32 => {},
        }
    }
}

fn array_values<R: Fn(u64) -> Numeral>(bytes: &[u8], depth: u32, render: &R) -> (r: Result<
    Vec<AnyValue>,
    Error,
>)
    requires
        renders(render),
        depth <= MAX_VALUE_DEPTH,
    ensures
        outcome_all(r) == folded(bytes@, 0, Seq::empty(), array_step(depth as int, numerals(render))),
    decreases room(depth as int), 0nat,
{
    let ghost step = array_step(depth as int, numerals(render));
    let mut reader: Reader = Reader::new(bytes);
    let mut values: Vec<AnyValue> = Vec::new();
    assert(views(values@) =~= Seq::empty());
    #[verifier::loop_isolation(false)]
    loop
        invariant
            reader@.bytes == bytes@,
            folded(bytes@, 0, Seq::empty(), step) == folded(
                bytes@,
                reader@.pos,
                views(values@),
                step,
            ),
        decreases bytes@.len() - reader@.pos,
    {
        let (number, payload): (u32, Payload<&[u8]>) = match reader.field() {
            Ok(Some(field)) => field,
            Ok(None) => {
                return Ok(values);
            },
            Err(error) => {
                return Err(error);
            },
        };
        match payload {
            Payload::Bytes(nested) => {
                if number == 1 {
                    if values.len() >= MAX_REPEATED {
                        return Err(too_wide_error("values"));
                    }
                    match any_value(nested, depth + 1, render) {
                        Ok(value) => {
                            proof {
                                lemma_views_push(values@, value);
                            }
                            values.push(value);
                        },
                        Err(error) => {
                            return Err(error);
                        },
                    }
                }
            },
            _ => {},
        }
    }
}

fn pair_values<R: Fn(u64) -> Numeral>(bytes: &[u8], depth: u32, render: &R) -> (r: Result<
    Vec<KeyValue>,
    Error,
>)
    requires
        renders(render),
        depth <= MAX_VALUE_DEPTH,
    ensures
        outcome_all(r) == folded(bytes@, 0, Seq::empty(), pairs_step(depth as int, numerals(render))),
    decreases room(depth as int), 0nat,
{
    let ghost step = pairs_step(depth as int, numerals(render));
    let mut reader: Reader = Reader::new(bytes);
    let mut values: Vec<KeyValue> = Vec::new();
    assert(views(values@) =~= Seq::empty());
    #[verifier::loop_isolation(false)]
    loop
        invariant
            reader@.bytes == bytes@,
            folded(bytes@, 0, Seq::empty(), step) == folded(
                bytes@,
                reader@.pos,
                views(values@),
                step,
            ),
        decreases bytes@.len() - reader@.pos,
    {
        let (number, payload): (u32, Payload<&[u8]>) = match reader.field() {
            Ok(Some(field)) => field,
            Ok(None) => {
                return Ok(values);
            },
            Err(error) => {
                return Err(error);
            },
        };
        match payload {
            Payload::Bytes(nested) => {
                if number == 1 {
                    if values.len() >= MAX_REPEATED {
                        return Err(too_wide_error("values"));
                    }
                    match key_value(nested, depth + 1, render) {
                        Ok(value) => {
                            proof {
                                lemma_views_push(values@, value);
                            }
                            values.push(value);
                        },
                        Err(error) => {
                            return Err(error);
                        },
                    }
                }
            },
            _ => {},
        }
    }
}

fn key_value<R: Fn(u64) -> Numeral>(bytes: &[u8], depth: u32, render: &R) -> (r: Result<
    KeyValue,
    Error,
>)
    requires
        renders(render),
        depth <= MAX_VALUE_DEPTH + 1,
    ensures
        outcome(r) == key_message(bytes@, depth as int, numerals(render)),
    decreases room(depth as int), 4nat,
{
    let ghost step = key_step(depth as int, numerals(render));
    let mut reader: Reader = Reader::new(bytes);
    let mut kv: KeyValue = KeyValue { key: String::new(), value: None };
    assert(kv@.key =~= Seq::empty());
    #[verifier::loop_isolation(false)]
    loop
        invariant
            reader@.bytes == bytes@,
            key_message(bytes@, depth as int, numerals(render)) == folded(
                bytes@,
                reader@.pos,
                kv@,
                step,
            ),
        decreases bytes@.len() - reader@.pos,
    {
        let (number, payload): (u32, Payload<&[u8]>) = match reader.field() {
            Ok(Some(field)) => field,
            Ok(None) => {
                return Ok(kv);
            },
            Err(error) => {
                return Err(error);
            },
        };
        match payload {
            Payload::Bytes(nested) => {
                if number == 1 {
                    match text_of(nested, reader.position()) {
                        Ok(text) => {
                            kv.key = text;
                        },
                        Err(error) => {
                            return Err(error);
                        },
                    }
                } else if number == 2 {
                    match any_value(nested, depth + 1, render) {
                        Ok(value) => {
                            kv.value = Some(value);
                        },
                        Err(error) => {
                            return Err(error);
                        },
                    }
                }
            },
            _ => {},
        }
    }
}

/// The attributes with one more.
pub open spec fn with_attribute(
    attributes: Seq<KeyView>,
    bytes: Seq<u8>,
    num: Numerals,
) -> Result<Seq<KeyView>, Fault> {
    pushed(attributes, key_message(bytes, 0, num), "attributes"@)
}

/// Adds an attribute; gives the refusal where it cannot be read.
fn push_attribute<R: Fn(u64) -> Numeral>(
    bytes: &[u8],
    attributes: &mut Vec<KeyValue>,
    render: &R,
) -> (refusal: Option<Error>)
    requires
        renders(render),
    ensures
        match with_attribute(views(old(attributes)@), bytes@, numerals(render)) {
            Ok(all) => refusal is None && views(final(attributes)@) == all,
            Err(fault) => refusal is Some && refusal->Some_0@ == fault,
        },
{
    if attributes.len() >= MAX_REPEATED {
        return Some(too_wide_error("attributes"));
    }
    match key_value(bytes, 0, render) {
        Ok(kv) => {
            proof {
                lemma_views_push(attributes@, kv);
            }
            attributes.push(kv);
            None
        },
        Err(error) => Some(error),
    }
}

pub open spec fn resource_step(num: Numerals) -> Step<Seq<KeyView>> {
    |out: Seq<KeyView>, number: u32, payload: PayloadView, at: int|
        match payload {
            Payload::Bytes(bytes) => if number == 1 {
                with_attribute(out, bytes, num)
            } else {
                Ok(out)
            },
            _ => Ok(out),
        }
}

/// A `Resource` message.
pub open spec fn resource_message(bytes: Seq<u8>, num: Numerals) -> Result<
    Seq<KeyView>,
    Fault,
> {
    folded(bytes, 0, Seq::empty(), resource_step(num))
}

fn resource<R: Fn(u64) -> Numeral>(bytes: &[u8], render: &R) -> (r: Result<Resource, Error>)
    requires
        renders(render),
    ensures
        outcome(r) == resource_message(bytes@, numerals(render)),
{
    let ghost step = resource_step(numerals(render));
    let mut reader: Reader = Reader::new(bytes);
    let mut out: Resource = Resource::default();
    loop
        invariant
            renders(render),
            step == resource_step(numerals(render)),
            reader@.bytes == bytes@,
            resource_message(bytes@, numerals(render)) == folded(
                bytes@,
                reader@.pos,
                out@,
                step,
            ),
        decreases bytes@.len() - reader@.pos,
    {
        let (number, payload): (u32, Payload<&[u8]>) = match reader.field() {
            Ok(Some(field)) => field,
            Ok(None) => {
                return Ok(out);
            },
            Err(error) => {
                return Err(error);
            },
        };
        match payload {
            Payload::Bytes(nested) => {
                if number == 1 {
                    match push_attribute(nested, &mut out.attributes, render) {
                        Some(error) => {
                            return Err(error);
                        },
                        None => {},
                    }
                }
            },
            _ => {},
        }
    }
}

pub open spec fn scope_step(num: Numerals) -> Step<ScopeView> {
    |out: ScopeView, number: u32, payload: PayloadView, at: int|
        match payload {
            Payload::Bytes(bytes) => if number == 1 {
                match text_value(bytes, at) {
                    Ok(text) => Ok(ScopeView { name: text, ..out }),
                    Err(fault) => Err(fault),
                }
            } else if number == 2 {
                match text_value(bytes, at) {
                    Ok(text) => Ok(ScopeView { version: text, ..out }),
                    Err(fault) => Err(fault),
                }
            } else if number == 3 {
                match with_attribute(out.attributes, bytes, num) {
                    Ok(attributes) => Ok(ScopeView { attributes, ..out }),
                    Err(fault) => Err(fault),
                }
            } else {
                Ok(out)
            },
            _ => Ok(out),
        }
}

/// An `InstrumentationScope` message.
pub open spec fn scope_message(bytes: Seq<u8>, num: Numerals) -> Result<
    ScopeView,
    Fault,
> {
    folded(bytes, 0, ScopeView::none(), scope_step(num))
}

fn scope<R: Fn(u64) -> Numeral>(bytes: &[u8], render: &R) -> (r: Result<
    InstrumentationScope,
    Error,
>)
    requires
        renders(render),
    ensures
        outcome(r) == scope_message(bytes@, numerals(render)),
{
    let ghost step = scope_step(numerals(render));
    let mut reader: Reader = Reader::new(bytes);
    let mut out: InstrumentationScope = InstrumentationScope::default();
    loop
        invariant
            renders(render),
            step == scope_step(numerals(render)),
            reader@.bytes == bytes@,
            scope_message(bytes@, numerals(render)) == folded(bytes@, reader@.pos, out@, step),
        decreases bytes@.len() - reader@.pos,
    {
        let (number, payload): (u32, Payload<&[u8]>) = match reader.field() {
            Ok(Some(field)) => field,
            Ok(None) => {
                return Ok(out);
            },
            Err(error) => {
                return Err(error);
            },
        };
        match payload {
            Payload::Bytes(nested) => {
                if number == 1 || number == 2 {
                    match text_of(nested, reader.position()) {
                        Ok(text) => {
                            if number == 1 {
                                out.name = text;
                            } else {
                                out.version = text;
                            }
                        },
                        Err(error) => {
                            return Err(error);
                        },
                    }
                } else if number == 3 {
                    match push_attribute(nested, &mut out.attributes, render) {
                        Some(error) => {
                            return Err(error);
                        },
                        None => {},
                    }
                }
            },
            _ => {},
        }
    }
}

/// An enum's number; zero where it is out of range.
pub open spec fn enum_value(raw: u64) -> i32 {
    if raw <= i32::MAX {
        raw as i32
    } else {
        0
    }
}

fn enum_of(raw: u64) -> (n: i32)
    ensures
        n == enum_value(raw),
{
    if raw <= i32::MAX as u64 {
        raw as i32
    } else {
        0
    }
}

// ---------------------------------------------------------------------------
// logs.proto
// ---------------------------------------------------------------------------

pub open spec fn log_record_step(num: Numerals) -> Step<LogRecordView> {
    |out: LogRecordView, number: u32, payload: PayloadView, at: int|
        match payload {
            Payload::Fixed64(value) => if number == 1 {
                Ok(LogRecordView { time_unix_nano: Some(value), ..out })
            } else if number == 11 {
                Ok(LogRecordView { observed_time_unix_nano: Some(value), ..out })
            } else {
                Ok(out)
            },
            Payload::Varint(value) => if number == 2 {
                Ok(
                    LogRecordView {
                        severity_number: FlexEnumView::Number(enum_value(value)),
                        ..out
                    },
                )
            } else {
                Ok(out)
            },
            Payload::Bytes(bytes) => if number == 3 {
                match text_value(bytes, at) {
                    Ok(text) => Ok(LogRecordView { severity_text: text, ..out }),
                    Err(fault) => Err(fault),
                }
            } else if number == 5 {
                match any_message(bytes, 0, num) {
                    Ok(value) => Ok(LogRecordView { body: Some(value), ..out }),
                    Err(fault) => Err(fault),
                }
            } else if number == 6 {
                match with_attribute(out.attributes, bytes, num) {
                    Ok(attributes) => Ok(LogRecordView { attributes, ..out }),
                    Err(fault) => Err(fault),
                }
            } else if number == 9 {
                Ok(LogRecordView { trace_id: hex_text(bytes), ..out })
            } else if number == 10 {
                Ok(LogRecordView { span_id: hex_text(bytes), ..out })
            } else {
                Ok(out)
            },
            Payload::Fixed32 => Ok(out),
        }
}

/// A `LogRecord` message.
pub open spec fn log_record_message(bytes: Seq<u8>, num: Numerals) -> Result<
    LogRecordView,
    Fault,
> {
    folded(bytes, 0, LogRecordView::none(), log_record_step(num))
}

fn log_record<R: Fn(u64) -> Numeral>(bytes: &[u8], render: &R) -> (r: Result<LogRecordJson, Error>)
    requires
        renders(render),
    ensures
        outcome(r) == log_record_message(bytes@, numerals(render)),
{
    let ghost step = log_record_step(numerals(render));
    let mut reader: Reader = Reader::new(bytes);
    let mut out: LogRecordJson = LogRecordJson::default();
    loop
        invariant
            renders(render),
            step == log_record_step(numerals(render)),
            reader@.bytes == bytes@,
            log_record_message(bytes@, numerals(render)) == folded(
                bytes@,
                reader@.pos,
                out@,
                step,
            ),
        decreases bytes@.len() - reader@.pos,
    {
        let (number, payload): (u32, Payload<&[u8]>) = match reader.field() {
            Ok(Some(field)) => field,
            Ok(None) => {
                return Ok(out);
            },
            Err(error) => {
                return Err(error);
            },
        };
        match payload {
            Payload::Fixed64(value) => {
                if number == 1 {
                    out.time_unix_nano = FlexU64::Number(value);
                } else if number == 11 {
                    out.observed_time_unix_nano = FlexU64::Number(value);
                }
            },
            Payload::Varint(value) => {
                if number == 2 {
                    out.severity_number = FlexEnum::Number(enum_of(value));
                }
            },
            Payload::Bytes(nested) => {
                if number == 3 {
                    match text_of(nested, reader.position()) {
                        Ok(text) => {
                            out.severity_text = text;
                        },
                        Err(error) => {
                            return Err(error);
                        },
                    }
                } else if number == 5 {
                    match any_value(nested, 0, render) {
                        Ok(value) => {
                            out.body = Some(value);
                        },
                        Err(error) => {
                            return Err(error);
                        },
                    }
                } else if number == 6 {
                    match push_attribute(nested, &mut out.attributes, render) {
                        Some(error) => {
                            return Err(error);
                        },
                        None => {},
                    }
                } else if number == 9 {
                    out.trace_id = hex(nested);
                } else if number == 10 {
                    out.span_id = hex(nested);
                }
            },
            Payload::Fixed32 => {},
        }
    }
}

pub open spec fn scope_logs_step(num: Numerals) -> Step<ScopeLogsView> {
    |out: ScopeLogsView, number: u32, payload: PayloadView, at: int|
        match payload {
            Payload::Bytes(bytes) => if number == 1 {
                match scope_message(bytes, num) {
                    Ok(scope) => Ok(ScopeLogsView { scope: Some(scope), ..out }),
                    Err(fault) => Err(fault),
                }
            } else if number == 2 {
                match pushed(out.log_records, log_record_message(bytes, num), "log_records"@) {
                    Ok(log_records) => Ok(ScopeLogsView { log_records, ..out }),
                    Err(fault) => Err(fault),
                }
            } else {
                Ok(out)
            },
            _ => Ok(out),
        }
}

/// A `ScopeLogs` message.
pub open spec fn scope_logs_message(bytes: Seq<u8>, num: Numerals) -> Result<
    ScopeLogsView,
    Fault,
> {
    folded(bytes, 0, ScopeLogsView::none(), scope_logs_step(num))
}

fn scope_logs<R: Fn(u64) -> Numeral>(bytes: &[u8], render: &R) -> (r: Result<ScopeLogs, Error>)
    requires
        renders(render),
    ensures
        outcome(r) == scope_logs_message(bytes@, numerals(render)),
{
    let ghost step = scope_logs_step(numerals(render));
    let mut reader: Reader = Reader::new(bytes);
    let mut out: ScopeLogs = ScopeLogs::default();
    loop
        invariant
            renders(render),
            step == scope_logs_step(numerals(render)),
            reader@.bytes == bytes@,
            scope_logs_message(bytes@, numerals(render)) == folded(
                bytes@,
                reader@.pos,
                out@,
                step,
            ),
        decreases bytes@.len() - reader@.pos,
    {
        let (number, payload): (u32, Payload<&[u8]>) = match reader.field() {
            Ok(Some(field)) => field,
            Ok(None) => {
                return Ok(out);
            },
            Err(error) => {
                return Err(error);
            },
        };
        match payload {
            Payload::Bytes(nested) => {
                if number == 1 {
                    match scope(nested, render) {
                        Ok(scope) => {
                            out.scope = Some(scope);
                        },
                        Err(error) => {
                            return Err(error);
                        },
                    }
                } else if number == 2 {
                    if out.log_records.len() >= MAX_REPEATED {
                        return Err(too_wide_error("log_records"));
                    }
                    match log_record(nested, render) {
                        Ok(record) => {
                            proof {
                                lemma_views_push(out.log_records@, record);
                            }
                            out.log_records.push(record);
                        },
                        Err(error) => {
                            return Err(error);
                        },
                    }
                }
            },
            _ => {},
        }
    }
}

pub open spec fn resource_logs_step(num: Numerals) -> Step<ResourceLogsView> {
    |out: ResourceLogsView, number: u32, payload: PayloadView, at: int|
        match payload {
            Payload::Bytes(bytes) => if number == 1 {
                match resource_message(bytes, num) {
                    Ok(resource) => Ok(ResourceLogsView { resource: Some(resource), ..out }),
                    Err(fault) => Err(fault),
                }
            } else if number == 2 {
                match pushed(out.scope_logs, scope_logs_message(bytes, num), "scope_logs"@) {
                    Ok(scope_logs) => Ok(ResourceLogsView { scope_logs, ..out }),
                    Err(fault) => Err(fault),
                }
            } else {
                Ok(out)
            },
            _ => Ok(out),
        }
}

/// A `ResourceLogs` message.
pub open spec fn resource_logs_message(bytes: Seq<u8>, num: Numerals) -> Result<
    ResourceLogsView,
    Fault,
> {
    folded(bytes, 0, ResourceLogsView::none(), resource_logs_step(num))
}

fn resource_logs<R: Fn(u64) -> Numeral>(bytes: &[u8], render: &R) -> (r: Result<
    ResourceLogs,
    Error,
>)
    requires
        renders(render),
    ensures
        outcome(r) == resource_logs_message(bytes@, numerals(render)),
{
    let ghost step = resource_logs_step(numerals(render));
    let mut reader: Reader = Reader::new(bytes);
    let mut out: ResourceLogs = ResourceLogs::default();
    loop
        invariant
            renders(render),
            step == resource_logs_step(numerals(render)),
            reader@.bytes == bytes@,
            resource_logs_message(bytes@, numerals(render)) == folded(
                bytes@,
                reader@.pos,
                out@,
                step,
            ),
        decreases bytes@.len() - reader@.pos,
    {
        let (number, payload): (u32, Payload<&[u8]>) = match reader.field() {
            Ok(Some(field)) => field,
            Ok(None) => {
                return Ok(out);
            },
            Err(error) => {
                return Err(error);
            },
        };
        match payload {
            Payload::Bytes(nested) => {
                if number == 1 {
                    match resource(nested, render) {
                        Ok(resource) => {
                            out.resource = Some(resource);
                        },
                        Err(error) => {
                            return Err(error);
                        },
                    }
                } else if number == 2 {
                    if out.scope_logs.len() >= MAX_REPEATED {
                        return Err(too_wide_error("scope_logs"));
                    }
                    match scope_logs(nested, render) {
                        Ok(scope) => {
                            proof {
                                lemma_views_push(out.scope_logs@, scope);
                            }
                            out.scope_logs.push(scope);
                        },
                        Err(error) => {
                            return Err(error);
                        },
                    }
                }
            },
            _ => {},
        }
    }
}

pub open spec fn logs_step(num: Numerals) -> Step<Seq<ResourceLogsView>> {
    |out: Seq<ResourceLogsView>, number: u32, payload: PayloadView, at: int|
        match payload {
            Payload::Bytes(bytes) => if number == 1 {
                pushed(out, resource_logs_message(bytes, num), "resource_logs"@)
            } else {
                Ok(out)
            },
            _ => Ok(out),
        }
}

/// An `ExportLogsServiceRequest`.
pub open spec fn logs_message(bytes: Seq<u8>, num: Numerals) -> Result<
    Seq<ResourceLogsView>,
    Fault,
> {
    folded(bytes, 0, Seq::empty(), logs_step(num))
}

/// Reads an `ExportLogsServiceRequest`, with `render` to write doubles.
pub fn logs<R: Fn(u64) -> Numeral>(body: &[u8], render: &R) -> (r: Result<LogsData, Error>)
    requires
        renders(render),
    ensures
        outcome(r) == logs_message(body@, numerals(render)),
{
    let ghost step = logs_step(numerals(render));
    let mut reader: Reader = Reader::new(body);
    let mut data: LogsData = LogsData::default();
    loop
        invariant
            renders(render),
            step == logs_step(numerals(render)),
            reader@.bytes == body@,
            logs_message(body@, numerals(render)) == folded(body@, reader@.pos, data@, step),
        decreases body@.len() - reader@.pos,
    {
        let (number, payload): (u32, Payload<&[u8]>) = match reader.field() {
            Ok(Some(field)) => field,
            Ok(None) => {
                return Ok(data);
            },
            Err(error) => {
                return Err(error);
            },
        };
        match payload {
            Payload::Bytes(nested) => {
                if number == 1 {
                    if data.resource_logs.len() >= MAX_REPEATED {
                        return Err(too_wide_error("resource_logs"));
                    }
                    match resource_logs(nested, render) {
                        Ok(logs) => {
                            proof {
                                lemma_views_push(data.resource_logs@, logs);
                            }
                            data.resource_logs.push(logs);
                        },
                        Err(error) => {
                            return Err(error);
                        },
                    }
                }
            },
            _ => {},
        }
    }
}

// ---------------------------------------------------------------------------
// trace.proto
// ---------------------------------------------------------------------------

pub open spec fn span_event_step(num: Numerals) -> Step<EventJsonView> {
    |out: EventJsonView, number: u32, payload: PayloadView, at: int|
        match payload {
            Payload::Fixed64(value) => if number == 1 {
                Ok(EventJsonView { time_unix_nano: Some(value), ..out })
            } else {
                Ok(out)
            },
            Payload::Bytes(bytes) => if number == 2 {
                match text_value(bytes, at) {
                    Ok(text) => Ok(EventJsonView { name: text, ..out }),
                    Err(fault) => Err(fault),
                }
            } else if number == 3 {
                match with_attribute(out.attributes, bytes, num) {
                    Ok(attributes) => Ok(EventJsonView { attributes, ..out }),
                    Err(fault) => Err(fault),
                }
            } else {
                Ok(out)
            },
            _ => Ok(out),
        }
}

/// A span's `Event` message.
pub open spec fn span_event_message(bytes: Seq<u8>, num: Numerals) -> Result<
    EventJsonView,
    Fault,
> {
    folded(bytes, 0, EventJsonView::none(), span_event_step(num))
}

fn span_event<R: Fn(u64) -> Numeral>(bytes: &[u8], render: &R) -> (r: Result<SpanEventJson, Error>)
    requires
        renders(render),
    ensures
        outcome(r) == span_event_message(bytes@, numerals(render)),
{
    let ghost step = span_event_step(numerals(render));
    let mut reader: Reader = Reader::new(bytes);
    let mut out: SpanEventJson = SpanEventJson::default();
    loop
        invariant
            renders(render),
            step == span_event_step(numerals(render)),
            reader@.bytes == bytes@,
            span_event_message(bytes@, numerals(render)) == folded(
                bytes@,
                reader@.pos,
                out@,
                step,
            ),
        decreases bytes@.len() - reader@.pos,
    {
        let (number, payload): (u32, Payload<&[u8]>) = match reader.field() {
            Ok(Some(field)) => field,
            Ok(None) => {
                return Ok(out);
            },
            Err(error) => {
                return Err(error);
            },
        };
        match payload {
            Payload::Fixed64(value) => {
                if number == 1 {
                    out.time_unix_nano = FlexU64::Number(value);
                }
            },
            Payload::Bytes(nested) => {
                if number == 2 {
                    match text_of(nested, reader.position()) {
                        Ok(text) => {
                            out.name = text;
                        },
                        Err(error) => {
                            return Err(error);
                        },
                    }
                } else if number == 3 {
                    match push_attribute(nested, &mut out.attributes, render) {
                        Some(error) => {
                            return Err(error);
                        },
                        None => {},
                    }
                }
            },
            _ => {},
        }
    }
}

pub open spec fn status_step(num: Numerals) -> Step<StatusView> {
    |out: StatusView, number: u32, payload: PayloadView, at: int|
        match payload {
            Payload::Varint(value) => if number == 3 {
                Ok(StatusView { code: FlexEnumView::Number(enum_value(value)), ..out })
            } else {
                Ok(out)
            },
            Payload::Bytes(bytes) => if number == 2 {
                match text_value(bytes, at) {
                    Ok(text) => Ok(StatusView { message: text, ..out }),
                    Err(fault) => Err(fault),
                }
            } else {
                Ok(out)
            },
            _ => Ok(out),
        }
}

/// A `Status` message.
pub open spec fn status_message(bytes: Seq<u8>, num: Numerals) -> Result<
    StatusView,
    Fault,
> {
    folded(bytes, 0, StatusView::none(), status_step(num))
}

fn status<R: Fn(u64) -> Numeral>(bytes: &[u8], render: &R) -> (r: Result<StatusJson, Error>)
    requires
        renders(render),
    ensures
        outcome(r) == status_message(bytes@, numerals(render)),
{
    let ghost step = status_step(numerals(render));
    let mut reader: Reader = Reader::new(bytes);
    let mut out: StatusJson = StatusJson::default();
    loop
        invariant
            renders(render),
            step == status_step(numerals(render)),
            reader@.bytes == bytes@,
            status_message(bytes@, numerals(render)) == folded(
                bytes@,
                reader@.pos,
                out@,
                step,
            ),
        decreases bytes@.len() - reader@.pos,
    {
        let (number, payload): (u32, Payload<&[u8]>) = match reader.field() {
            Ok(Some(field)) => field,
            Ok(None) => {
                return Ok(out);
            },
            Err(error) => {
                return Err(error);
            },
        };
        match payload {
            Payload::Varint(value) => {
                if number == 3 {
                    out.code = FlexEnum::Number(enum_of(value));
                }
            },
            Payload::Bytes(nested) => {
                if number == 2 {
                    match text_of(nested, reader.position()) {
                        Ok(text) => {
                            out.message = text;
                        },
                        Err(error) => {
                            return Err(error);
                        },
                    }
                }
            },
            _ => {},
        }
    }
}

pub open spec fn span_step(num: Numerals) -> Step<SpanJsonView> {
    |out: SpanJsonView, number: u32, payload: PayloadView, at: int|
        match payload {
            Payload::Fixed64(value) => if number == 7 {
                Ok(SpanJsonView { start_time_unix_nano: Some(value), ..out })
            } else if number == 8 {
                Ok(SpanJsonView { end_time_unix_nano: Some(value), ..out })
            } else {
                Ok(out)
            },
            Payload::Varint(value) => if number == 6 {
                Ok(SpanJsonView { kind: FlexEnumView::Number(enum_value(value)), ..out })
            } else {
                Ok(out)
            },
            Payload::Bytes(bytes) => if number == 1 {
                Ok(SpanJsonView { trace_id: hex_text(bytes), ..out })
            } else if number == 2 {
                Ok(SpanJsonView { span_id: hex_text(bytes), ..out })
            } else if number == 4 {
                Ok(SpanJsonView { parent_span_id: hex_text(bytes), ..out })
            } else if number == 5 {
                match text_value(bytes, at) {
                    Ok(text) => Ok(SpanJsonView { name: text, ..out }),
                    Err(fault) => Err(fault),
                }
            } else if number == 9 {
                match with_attribute(out.attributes, bytes, num) {
                    Ok(attributes) => Ok(SpanJsonView { attributes, ..out }),
                    Err(fault) => Err(fault),
                }
            } else if number == 11 {
                match pushed(out.events, span_event_message(bytes, num), "events"@) {
                    Ok(events) => Ok(SpanJsonView { events, ..out }),
                    Err(fault) => Err(fault),
                }
            } else if number == 15 {
                match status_message(bytes, num) {
                    Ok(value) => Ok(SpanJsonView { status: Some(value), ..out }),
                    Err(fault) => Err(fault),
                }
            } else {
                Ok(out)
            },
            _ => Ok(out),
        }
}

/// A `Span` message.
pub open spec fn span_message(bytes: Seq<u8>, num: Numerals) -> Result<
    SpanJsonView,
    Fault,
> {
    folded(bytes, 0, SpanJsonView::none(), span_step(num))
}

fn span<R: Fn(u64) -> Numeral>(bytes: &[u8], render: &R) -> (r: Result<SpanJson, Error>)
    requires
        renders(render),
    ensures
        outcome(r) == span_message(bytes@, numerals(render)),
{
    let ghost step = span_step(numerals(render));
    let mut reader: Reader = Reader::new(bytes);
    let mut out: SpanJson = SpanJson::default();
    loop
        invariant
            renders(render),
            step == span_step(numerals(render)),
            reader@.bytes == bytes@,
            span_message(bytes@, numerals(render)) == folded(
                bytes@,
                reader@.pos,
                out@,
                step,
            ),
        decreases bytes@.len() - reader@.pos,
    {
        let (number, payload): (u32, Payload<&[u8]>) = match reader.field() {
            Ok(Some(field)) => field,
            Ok(None) => {
                return Ok(out);
            },
            Err(error) => {
                return Err(error);
            },
        };
        match payload {
            Payload::Fixed64(value) => {
                if number == 7 {
                    out.start_time_unix_nano = FlexU64::Number(value);
                } else if number == 8 {
                    out.end_time_unix_nano = FlexU64::Number(value);
                }
            },
            Payload::Varint(value) => {
                if number == 6 {
                    out.kind = FlexEnum::Number(enum_of(value));
                }
            },
            Payload::Bytes(nested) => {
                if number == 1 {
                    out.trace_id = hex(nested);
                } else if number == 2 {
                    out.span_id = hex(nested);
                } else if number == 4 {
                    out.parent_span_id = hex(nested);
                } else if number == 5 {
                    match text_of(nested, reader.position()) {
                        Ok(text) => {
                            out.name = text;
                        },
                        Err(error) => {
                            return Err(error);
                        },
                    }
                } else if number == 9 {
                    match push_attribute(nested, &mut out.attributes, render) {
                        Some(error) => {
                            return Err(error);
                        },
                        None => {},
                    }
                } else if number == 11 {
                    if out.events.len() >= MAX_REPEATED {
                        return Err(too_wide_error("events"));
                    }
                    match span_event(nested, render) {
                        Ok(value) => {
                            proof {
                                lemma_views_push(out.events@, value);
                            }
                            out.events.push(value);
                        },
                        Err(error) => {
                            return Err(error);
                        },
                    }
                } else if number == 15 {
                    match status(nested, render) {
                        Ok(value) => {
                            out.status = Some(value);
                        },
                        Err(error) => {
                            return Err(error);
                        },
                    }
                }
            },
            _ => {},
        }
    }
}

pub open spec fn scope_spans_step(num: Numerals) -> Step<ScopeSpansView> {
    |out: ScopeSpansView, number: u32, payload: PayloadView, at: int|
        match payload {
            Payload::Bytes(bytes) => if number == 1 {
                match scope_message(bytes, num) {
                    Ok(value) => Ok(ScopeSpansView { scope: Some(value), ..out }),
                    Err(fault) => Err(fault),
                }
            } else if number == 2 {
                match pushed(out.spans, span_message(bytes, num), "spans"@) {
                    Ok(list) => Ok(ScopeSpansView { spans: list, ..out }),
                    Err(fault) => Err(fault),
                }
            } else {
                Ok(out)
            },
            _ => Ok(out),
        }
}

/// A `ScopeSpans` message.
pub open spec fn scope_spans_message(bytes: Seq<u8>, num: Numerals) -> Result<
    ScopeSpansView,
    Fault,
> {
    folded(bytes, 0, ScopeSpansView::none(), scope_spans_step(num))
}

fn scope_spans<R: Fn(u64) -> Numeral>(bytes: &[u8], render: &R) -> (r: Result<ScopeSpans, Error>)
    requires
        renders(render),
    ensures
        outcome(r) == scope_spans_message(bytes@, numerals(render)),
{
    let ghost step = scope_spans_step(numerals(render));
    let mut reader: Reader = Reader::new(bytes);
    let mut out: ScopeSpans = ScopeSpans::default();
    loop
        invariant
            renders(render),
            step == scope_spans_step(numerals(render)),
            reader@.bytes == bytes@,
            scope_spans_message(bytes@, numerals(render)) == folded(
                bytes@,
                reader@.pos,
                out@,
                step,
            ),
        decreases bytes@.len() - reader@.pos,
    {
        let (number, payload): (u32, Payload<&[u8]>) = match reader.field() {
            Ok(Some(field)) => field,
            Ok(None) => {
                return Ok(out);
            },
            Err(error) => {
                return Err(error);
            },
        };
        match payload {
            Payload::Bytes(nested) => {
                if number == 1 {
                    match scope(nested, render) {
                        Ok(value) => {
                            out.scope = Some(value);
                        },
                        Err(error) => {
                            return Err(error);
                        },
                    }
                } else if number == 2 {
                    if out.spans.len() >= MAX_REPEATED {
                        return Err(too_wide_error("spans"));
                    }
                    match span(nested, render) {
                        Ok(value) => {
                            proof {
                                lemma_views_push(out.spans@, value);
                            }
                            out.spans.push(value);
                        },
                        Err(error) => {
                            return Err(error);
                        },
                    }
                }
            },
            _ => {},
        }
    }
}

pub open spec fn resource_spans_step(num: Numerals) -> Step<ResourceSpansView> {
    |out: ResourceSpansView, number: u32, payload: PayloadView, at: int|
        match payload {
            Payload::Bytes(bytes) => if number == 1 {
                match resource_message(bytes, num) {
                    Ok(value) => Ok(ResourceSpansView { resource: Some(value), ..out }),
                    Err(fault) => Err(fault),
                }
            } else if number == 2 {
                match pushed(out.scope_spans, scope_spans_message(bytes, num), "scope_spans"@) {
                    Ok(list) => Ok(ResourceSpansView { scope_spans: list, ..out }),
                    Err(fault) => Err(fault),
                }
            } else {
                Ok(out)
            },
            _ => Ok(out),
        }
}

/// A `ResourceSpans` message.
pub open spec fn resource_spans_message(bytes: Seq<u8>, num: Numerals) -> Result<
    ResourceSpansView,
    Fault,
> {
    folded(bytes, 0, ResourceSpansView::none(), resource_spans_step(num))
}

fn resource_spans<R: Fn(u64) -> Numeral>(
    bytes: &[u8],
    render: &R,
) -> (r: Result<ResourceSpans, Error>)
    requires
        renders(render),
    ensures
        outcome(r) == resource_spans_message(bytes@, numerals(render)),
{
    let ghost step = resource_spans_step(numerals(render));
    let mut reader: Reader = Reader::new(bytes);
    let mut out: ResourceSpans = ResourceSpans::default();
    loop
        invariant
            renders(render),
            step == resource_spans_step(numerals(render)),
            reader@.bytes == bytes@,
            resource_spans_message(bytes@, numerals(render)) == folded(
                bytes@,
                reader@.pos,
                out@,
                step,
            ),
        decreases bytes@.len() - reader@.pos,
    {
        let (number, payload): (u32, Payload<&[u8]>) = match reader.field() {
            Ok(Some(field)) => field,
            Ok(None) => {
                return Ok(out);
            },
            Err(error) => {
                return Err(error);
            },
        };
        match payload {
            Payload::Bytes(nested) => {
                if number == 1 {
                    match resource(nested, render) {
                        Ok(value) => {
                            out.resource = Some(value);
                        },
                        Err(error) => {
                            return Err(error);
                        },
                    }
                } else if number == 2 {
                    if out.scope_spans.len() >= MAX_REPEATED {
                        return Err(too_wide_error("scope_spans"));
                    }
                    match scope_spans(nested, render) {
                        Ok(value) => {
                            proof {
                                lemma_views_push(out.scope_spans@, value);
                            }
                            out.scope_spans.push(value);
                        },
                        Err(error) => {
                            return Err(error);
                        },
                    }
                }
            },
            _ => {},
        }
    }
}

pub open spec fn traces_step(num: Numerals) -> Step<Seq<ResourceSpansView>> {
    |out: Seq<ResourceSpansView>, number: u32, payload: PayloadView, at: int|
        match payload {
            Payload::Bytes(bytes) => if number == 1 {
                pushed(out, resource_spans_message(bytes, num), "resource_spans"@)
            } else {
                Ok(out)
            },
            _ => Ok(out),
        }
}

/// An `ExportTraceServiceRequest`.
pub open spec fn traces_message(bytes: Seq<u8>, num: Numerals) -> Result<
    Seq<ResourceSpansView>,
    Fault,
> {
    folded(bytes, 0, Seq::empty(), traces_step(num))
}

/// Reads an `ExportTraceServiceRequest`, with `render` to write doubles.
pub fn traces<R: Fn(u64) -> Numeral>(bytes: &[u8], render: &R) -> (r: Result<TracesData, Error>)
    requires
        renders(render),
    ensures
        outcome(r) == traces_message(bytes@, numerals(render)),
{
    let ghost step = traces_step(numerals(render));
    let mut reader: Reader = Reader::new(bytes);
    let mut out: TracesData = TracesData::default();
    loop
        invariant
            renders(render),
            step == traces_step(numerals(render)),
            reader@.bytes == bytes@,
            traces_message(bytes@, numerals(render)) == folded(
                bytes@,
                reader@.pos,
                out@,
                step,
            ),
        decreases bytes@.len() - reader@.pos,
    {
        let (number, payload): (u32, Payload<&[u8]>) = match reader.field() {
            Ok(Some(field)) => field,
            Ok(None) => {
                return Ok(out);
            },
            Err(error) => {
                return Err(error);
            },
        };
        match payload {
            Payload::Bytes(nested) => {
                if number == 1 {
                    if out.resource_spans.len() >= MAX_REPEATED {
                        return Err(too_wide_error("resource_spans"));
                    }
                    match resource_spans(nested, render) {
                        Ok(value) => {
                            proof {
                                lemma_views_push(out.resource_spans@, value);
                            }
                            out.resource_spans.push(value);
                        },
                        Err(error) => {
                            return Err(error);
                        },
                    }
                }
            },
            _ => {},
        }
    }
}

// ---------------------------------------------------------------------------
// metrics.proto
// ---------------------------------------------------------------------------

pub open spec fn number_point_step(num: Numerals) -> Step<PointView> {
    |out: PointView, number: u32, payload: PayloadView, at: int|
        match payload {
            Payload::Fixed64(value) => if number == 3 {
                Ok(PointView { time_unix_nano: Some(value), ..out })
            } else if number == 4 {
                Ok(PointView { as_double: Some(value), ..out })
            } else if number == 6 {
                Ok(PointView { as_int: Some(signed_of(value)), ..out })
            } else {
                Ok(out)
            },
            Payload::Bytes(bytes) => if number == 7 {
                match with_attribute(out.attributes, bytes, num) {
                    Ok(attributes) => Ok(PointView { attributes, ..out }),
                    Err(fault) => Err(fault),
                }
            } else {
                Ok(out)
            },
            _ => Ok(out),
        }
}

/// A `NumberDataPoint` message. `as_int` is eight raw bytes, not a varint.
pub open spec fn number_point_message(bytes: Seq<u8>, num: Numerals) -> Result<
    PointView,
    Fault,
> {
    folded(bytes, 0, PointView::none(), number_point_step(num))
}

fn number_point<R: Fn(u64) -> Numeral>(bytes: &[u8], render: &R) -> (r: Result<NumberPoint, Error>)
    requires
        renders(render),
    ensures
        outcome(r) == number_point_message(bytes@, numerals(render)),
{
    let ghost step = number_point_step(numerals(render));
    let mut reader: Reader = Reader::new(bytes);
    let mut out: NumberPoint = NumberPoint::default();
    loop
        invariant
            renders(render),
            step == number_point_step(numerals(render)),
            reader@.bytes == bytes@,
            number_point_message(bytes@, numerals(render)) == folded(
                bytes@,
                reader@.pos,
                out@,
                step,
            ),
        decreases bytes@.len() - reader@.pos,
    {
        let (number, payload): (u32, Payload<&[u8]>) = match reader.field() {
            Ok(Some(field)) => field,
            Ok(None) => {
                return Ok(out);
            },
            Err(error) => {
                return Err(error);
            },
        };
        match payload {
            Payload::Fixed64(value) => {
                if number == 3 {
                    out.time_unix_nano = FlexU64::Number(value);
                } else if number == 4 {
                    out.as_double = Some(value);
                } else if number == 6 {
                    out.as_int = FlexI64::Number(signed(value));
                }
            },
            Payload::Bytes(nested) => {
                if number == 7 {
                    match push_attribute(nested, &mut out.attributes, render) {
                        Some(error) => {
                            return Err(error);
                        },
                        None => {},
                    }
                }
            },
            _ => {},
        }
    }
}

pub open spec fn number_points_step(num: Numerals) -> Step<Seq<PointView>> {
    |out: Seq<PointView>, number: u32, payload: PayloadView, at: int|
        match payload {
            Payload::Bytes(bytes) => if number == 1 {
                pushed(out, number_point_message(bytes, num), "data_points"@)
            } else {
                Ok(out)
            },
            _ => Ok(out),
        }
}

/// A `Gauge` message: its data points.
pub open spec fn number_points_message(bytes: Seq<u8>, num: Numerals) -> Result<
    Seq<PointView>,
    Fault,
> {
    folded(bytes, 0, Seq::empty(), number_points_step(num))
}

fn number_points<R: Fn(u64) -> Numeral>(
    bytes: &[u8],
    render: &R,
) -> (r: Result<Vec<NumberPoint>, Error>)
    requires
        renders(render),
    ensures
        outcome_all(r) == number_points_message(bytes@, numerals(render)),
{
    let ghost step = number_points_step(numerals(render));
    let mut reader: Reader = Reader::new(bytes);
    let mut out: Vec<NumberPoint> = Vec::new();
    assert(views(out@) =~= Seq::empty());
    loop
        invariant
            renders(render),
            step == number_points_step(numerals(render)),
            reader@.bytes == bytes@,
            number_points_message(bytes@, numerals(render)) == folded(
                bytes@,
                reader@.pos,
                views(out@),
                step,
            ),
        decreases bytes@.len() - reader@.pos,
    {
        let (number, payload): (u32, Payload<&[u8]>) = match reader.field() {
            Ok(Some(field)) => field,
            Ok(None) => {
                return Ok(out);
            },
            Err(error) => {
                return Err(error);
            },
        };
        match payload {
            Payload::Bytes(nested) => {
                if number == 1 {
                    if out.len() >= MAX_REPEATED {
                        return Err(too_wide_error("data_points"));
                    }
                    match number_point(nested, render) {
                        Ok(value) => {
                            proof {
                                lemma_views_push(out@, value);
                            }
                            out.push(value);
                        },
                        Err(error) => {
                            return Err(error);
                        },
                    }
                }
            },
            _ => {},
        }
    }
}

pub open spec fn sum_step(num: Numerals) -> Step<SumView> {
    |out: SumView, number: u32, payload: PayloadView, at: int|
        match payload {
            Payload::Varint(value) => if number == 2 {
                Ok(SumView { temporality: FlexEnumView::Number(enum_value(value)), ..out })
            } else if number == 3 {
                Ok(SumView { is_monotonic: value != 0, ..out })
            } else {
                Ok(out)
            },
            Payload::Bytes(bytes) => if number == 1 {
                match pushed(out.data_points, number_point_message(bytes, num), "data_points"@) {
                    Ok(data_points) => Ok(SumView { data_points, ..out }),
                    Err(fault) => Err(fault),
                }
            } else {
                Ok(out)
            },
            _ => Ok(out),
        }
}

/// A `Sum` message.
pub open spec fn sum_message(bytes: Seq<u8>, num: Numerals) -> Result<
    SumView,
    Fault,
> {
    folded(bytes, 0, SumView::none(), sum_step(num))
}

fn sum<R: Fn(u64) -> Numeral>(bytes: &[u8], render: &R) -> (r: Result<SumData, Error>)
    requires
        renders(render),
    ensures
        outcome(r) == sum_message(bytes@, numerals(render)),
{
    let ghost step = sum_step(numerals(render));
    let mut reader: Reader = Reader::new(bytes);
    let mut out: SumData = SumData::default();
    loop
        invariant
            renders(render),
            step == sum_step(numerals(render)),
            reader@.bytes == bytes@,
            sum_message(bytes@, numerals(render)) == folded(
                bytes@,
                reader@.pos,
                out@,
                step,
            ),
        decreases bytes@.len() - reader@.pos,
    {
        let (number, payload): (u32, Payload<&[u8]>) = match reader.field() {
            Ok(Some(field)) => field,
            Ok(None) => {
                return Ok(out);
            },
            Err(error) => {
                return Err(error);
            },
        };
        match payload {
            Payload::Varint(value) => {
                if number == 2 {
                    out.aggregation_temporality = FlexEnum::Number(enum_of(value));
                } else if number == 3 {
                    out.is_monotonic = value != 0;
                }
            },
            Payload::Bytes(nested) => {
                if number == 1 {
                    if out.data_points.len() >= MAX_REPEATED {
                        return Err(too_wide_error("data_points"));
                    }
                    match number_point(nested, render) {
                        Ok(value) => {
                            proof {
                                lemma_views_push(out.data_points@, value);
                            }
                            out.data_points.push(value);
                        },
                        Err(error) => {
                            return Err(error);
                        },
                    }
                }
            },
            _ => {},
        }
    }
}

/// The eight-byte numbers of a packed field from `at` on, behind those already read and
/// the `held` ones of its list, refused where the list is full.
pub open spec fn packed_from(
    bytes: Seq<u8>,
    at: int,
    out: Seq<u64>,
    held: nat,
    field: Seq<char>,
) -> Result<Seq<u64>, Fault>
    decreases bytes.len() - at,
{
    if at >= bytes.len() {
        Ok(out)
    } else if held + out.len() >= MAX_REPEATED {
        Err(too_wide(field))
    } else {
        match fixed64_at(bytes, at) {
            Ok((value, _)) => packed_from(bytes, at + 8, out.push(value), held, field),
            Err((message, position)) => Err(wire_fault(message, position)),
        }
    }
}

fn packed(bytes: &[u8], held: usize, field: &str) -> (r: Result<Vec<u64>, Error>)
    ensures
        match packed_from(bytes@, 0, Seq::empty(), held as nat, field@) {
            Ok(values) => r is Ok && r->Ok_0@ == values,
            Err(fault) => r is Err && r->Err_0@ == fault,
        },
{
    let mut reader: Reader = Reader::new(bytes);
    let mut out: Vec<u64> = Vec::new();
    assert(out@ =~= Seq::empty());
    while !reader.is_empty()
        invariant
            reader@.bytes == bytes@,
            packed_from(bytes@, 0, Seq::empty(), held as nat, field@) == packed_from(
                bytes@,
                reader@.pos,
                out@,
                held as nat,
                field@,
            ),
        decreases bytes@.len() - reader@.pos,
    {
        if held >= MAX_REPEATED || out.len() >= MAX_REPEATED - held {
            return Err(too_wide_error(field));
        }
        match reader.fixed64() {
            Ok(value) => out.push(value),
            Err(error) => {
                return Err(error);
            },
        }
    }
    Ok(out)
}

/// Counts that are all there.
pub open spec fn given(values: Seq<u64>) -> Seq<Option<u64>> {
    values.map_values(|value: u64| Some(value))
}

/// Bounds as they are written.
pub open spec fn written(values: Seq<u64>, bound: Bounds) -> Seq<Seq<char>> {
    values.map_values(|value: u64| bound(value))
}

fn push_counts(bytes: &[u8], counts: &mut Vec<FlexU64>) -> (refusal: Option<Error>)
    ensures
        match packed_from(
            bytes@,
            0,
            Seq::empty(),
            old(counts)@.len(),
            "bucket_counts"@,
        ) {
            Ok(values) => refusal is None && counts_view(final(counts)@) == counts_view(
                old(counts)@,
            ) + given(values),
            Err(fault) => refusal is Some && refusal->Some_0@ == fault,
        },
{
    let values: Vec<u64> = match packed(bytes, counts.len(), "bucket_counts") {
        Ok(values) => values,
        Err(error) => {
            return Some(error);
        },
    };
    let ghost start = counts_view(counts@);
    let mut i: usize = 0;
    assert(start + given(values@).take(0) =~= start);
    while i < values.len()
        invariant
            i <= values@.len(),
            counts_view(counts@) == start + given(values@).take(i as int),
        decreases values@.len() - i,
    {
        let ghost done = counts@;
        counts.push(FlexU64::Number(values[i]));
        assert(counts_view(counts@) =~= counts_view(done).push(Some(values@[i as int])));
        assert(start + given(values@).take(i as int + 1) =~= (start + given(values@).take(
            i as int,
        )).push(Some(values@[i as int])));
        i += 1;
    }
    assert(given(values@).take(i as int) =~= given(values@));
    None
}

fn push_bounds<B: Fn(u64) -> String>(bytes: &[u8], list: &mut Vec<String>, bound: &B) -> (refusal:
    Option<Error>)
    requires
        writes(bound),
    ensures
        match packed_from(
            bytes@,
            0,
            Seq::empty(),
            old(list)@.len(),
            "explicit_bounds"@,
        ) {
            Ok(values) => refusal is None && views(final(list)@) == views(old(list)@) + written(
                values,
                bounds(bound),
            ),
            Err(fault) => refusal is Some && refusal->Some_0@ == fault,
        },
{
    let values: Vec<u64> = match packed(bytes, list.len(), "explicit_bounds") {
        Ok(values) => values,
        Err(error) => {
            return Some(error);
        },
    };
    let ghost start = views(list@);
    let ghost texts = written(values@, bounds(bound));
    let mut i: usize = 0;
    assert(start + texts.take(0) =~= start);
    while i < values.len()
        invariant
            i <= values@.len(),
            writes(bound),
            texts == written(values@, bounds(bound)),
            views(list@) == start + texts.take(i as int),
        decreases values@.len() - i,
    {
        let text: String = bound(values[i]);
        proof {
            assert(text@ == bounds(bound)(values@[i as int]));
            lemma_views_push(list@, text);
            assert(start + texts.take(i as int + 1) =~= (start + texts.take(i as int)).push(text@));
        }
        list.push(text);
        i += 1;
    }
    assert(texts.take(i as int) =~= texts);
    None
}

pub open spec fn histogram_point_step(num: Numerals, bound: Bounds) -> Step<HistogramView> {
    |out: HistogramView, number: u32, payload: PayloadView, at: int|
        match payload {
            Payload::Fixed64(value) => if number == 3 {
                Ok(HistogramView { time_unix_nano: Some(value), ..out })
            } else if number == 4 {
                Ok(HistogramView { count: Some(value), ..out })
            } else if number == 5 {
                Ok(HistogramView { sum: Some(value), ..out })
            } else {
                Ok(out)
            },
            Payload::Bytes(bytes) => if number == 6 {
                match packed_from(
                    bytes,
                    0,
                    Seq::empty(),
                    out.bucket_counts.len(),
                    "bucket_counts"@,
                ) {
                    Ok(values) => Ok(
                        HistogramView { bucket_counts: out.bucket_counts + given(values), ..out },
                    ),
                    Err(fault) => Err(fault),
                }
            } else if number == 7 {
                match packed_from(
                    bytes,
                    0,
                    Seq::empty(),
                    out.explicit_bounds.len(),
                    "explicit_bounds"@,
                ) {
                    Ok(values) => Ok(
                        HistogramView {
                            explicit_bounds: out.explicit_bounds + written(values, bound),
                            ..out
                        },
                    ),
                    Err(fault) => Err(fault),
                }
            } else if number == 9 {
                match with_attribute(out.attributes, bytes, num) {
                    Ok(attributes) => Ok(HistogramView { attributes, ..out }),
                    Err(fault) => Err(fault),
                }
            } else {
                Ok(out)
            },
            _ => Ok(out),
        }
}

/// A `HistogramDataPoint` message. Counts and bounds are packed: one field holds every
/// element.
pub open spec fn histogram_point_message(bytes: Seq<u8>, num: Numerals, bound: Bounds) -> Result<
    HistogramView,
    Fault,
> {
    folded(bytes, 0, HistogramView::none(), histogram_point_step(num, bound))
}

fn histogram_point<R: Fn(u64) -> Numeral, B: Fn(u64) -> String>(
    bytes: &[u8],
    render: &R,
    bound: &B,
) -> (r: Result<HistogramPoint, Error>)
    requires
        renders(render),
        writes(bound),
    ensures
        outcome(r) == histogram_point_message(bytes@, numerals(render), bounds(bound)),
{
    let ghost step = histogram_point_step(numerals(render), bounds(bound));
    let mut reader: Reader = Reader::new(bytes);
    let mut out: HistogramPoint = HistogramPoint::default();
    loop
        invariant
            renders(render),
            writes(bound),
            step == histogram_point_step(numerals(render), bounds(bound)),
            reader@.bytes == bytes@,
            histogram_point_message(bytes@, numerals(render), bounds(bound)) == folded(
                bytes@,
                reader@.pos,
                out@,
                step,
            ),
        decreases bytes@.len() - reader@.pos,
    {
        let (number, payload): (u32, Payload<&[u8]>) = match reader.field() {
            Ok(Some(field)) => field,
            Ok(None) => {
                return Ok(out);
            },
            Err(error) => {
                return Err(error);
            },
        };
        match payload {
            Payload::Fixed64(value) => {
                if number == 3 {
                    out.time_unix_nano = FlexU64::Number(value);
                } else if number == 4 {
                    out.count = FlexU64::Number(value);
                } else if number == 5 {
                    out.sum = Some(value);
                }
            },
            Payload::Bytes(nested) => {
                if number == 6 {
                    match push_counts(nested, &mut out.bucket_counts) {
                        Some(error) => {
                            return Err(error);
                        },
                        None => {},
                    }
                } else if number == 7 {
                    match push_bounds(nested, &mut out.explicit_bounds, bound) {
                        Some(error) => {
                            return Err(error);
                        },
                        None => {},
                    }
                } else if number == 9 {
                    match push_attribute(nested, &mut out.attributes, render) {
                        Some(error) => {
                            return Err(error);
                        },
                        None => {},
                    }
                }
            },
            _ => {},
        }
    }
}

pub open spec fn histogram_points_step(num: Numerals, bound: Bounds) -> Step<HistogramsView> {
    |out: HistogramsView, number: u32, payload: PayloadView, at: int|
        match payload {
            Payload::Varint(value) => if number == 2 {
                Ok(HistogramsView { temporality: FlexEnumView::Number(enum_value(value)), ..out })
            } else {
                Ok(out)
            },
            Payload::Bytes(bytes) => if number == 1 {
                match pushed(
                    out.data_points,
                    histogram_point_message(bytes, num, bound),
                    "data_points"@,
                ) {
                    Ok(data_points) => Ok(HistogramsView { data_points, ..out }),
                    Err(fault) => Err(fault),
                }
            } else {
                Ok(out)
            },
            _ => Ok(out),
        }
}

/// A `Histogram` message.
pub open spec fn histogram_points_message(bytes: Seq<u8>, num: Numerals, bound: Bounds) -> Result<
    HistogramsView,
    Fault,
> {
    folded(bytes, 0, HistogramsView::none(), histogram_points_step(num, bound))
}

fn histogram_points<R: Fn(u64) -> Numeral, B: Fn(u64) -> String>(
    bytes: &[u8],
    render: &R,
    bound: &B,
) -> (r: Result<HistogramData, Error>)
    requires
        renders(render),
        writes(bound),
    ensures
        outcome(r) == histogram_points_message(bytes@, numerals(render), bounds(bound)),
{
    let ghost step = histogram_points_step(numerals(render), bounds(bound));
    let mut reader: Reader = Reader::new(bytes);
    let mut out: HistogramData = HistogramData::default();
    loop
        invariant
            renders(render),
            writes(bound),
            step == histogram_points_step(numerals(render), bounds(bound)),
            reader@.bytes == bytes@,
            histogram_points_message(bytes@, numerals(render), bounds(bound)) == folded(
                bytes@,
                reader@.pos,
                out@,
                step,
            ),
        decreases bytes@.len() - reader@.pos,
    {
        let (number, payload): (u32, Payload<&[u8]>) = match reader.field() {
            Ok(Some(field)) => field,
            Ok(None) => {
                return Ok(out);
            },
            Err(error) => {
                return Err(error);
            },
        };
        match payload {
            Payload::Varint(value) => {
                if number == 2 {
                    out.aggregation_temporality = FlexEnum::Number(enum_of(value));
                }
            },
            Payload::Bytes(nested) => {
                if number == 1 {
                    if out.data_points.len() >= MAX_REPEATED {
                        return Err(too_wide_error("data_points"));
                    }
                    match histogram_point(nested, render, bound) {
                        Ok(value) => {
                            proof {
                                lemma_views_push(out.data_points@, value);
                            }
                            out.data_points.push(value);
                        },
                        Err(error) => {
                            return Err(error);
                        },
                    }
                }
            },
            _ => {},
        }
    }
}

pub open spec fn metric_step(num: Numerals, bound: Bounds) -> Step<MetricView> {
    |out: MetricView, number: u32, payload: PayloadView, at: int|
        match payload {
            Payload::Bytes(bytes) => if number == 1 {
                match text_value(bytes, at) {
                    Ok(text) => Ok(MetricView { name: text, ..out }),
                    Err(fault) => Err(fault),
                }
            } else if number == 3 {
                match text_value(bytes, at) {
                    Ok(text) => Ok(MetricView { unit: text, ..out }),
                    Err(fault) => Err(fault),
                }
            } else if number == 5 {
                match number_points_message(bytes, num) {
                    Ok(value) => Ok(MetricView { gauge: Some(value), ..out }),
                    Err(fault) => Err(fault),
                }
            } else if number == 7 {
                match sum_message(bytes, num) {
                    Ok(value) => Ok(MetricView { sum: Some(value), ..out }),
                    Err(fault) => Err(fault),
                }
            } else if number == 9 {
                match histogram_points_message(bytes, num, bound) {
                    Ok(value) => Ok(MetricView { histogram: Some(value), ..out }),
                    Err(fault) => Err(fault),
                }
            } else if number == 10 {
                Ok(MetricView { exponential_histogram: true, ..out })
            } else if number == 11 {
                Ok(MetricView { summary: true, ..out })
            } else {
                Ok(out)
            },
            _ => Ok(out),
        }
}

/// A `Metric` message.
pub open spec fn metric_message(bytes: Seq<u8>, num: Numerals, bound: Bounds) -> Result<
    MetricView,
    Fault,
> {
    folded(bytes, 0, MetricView::none(), metric_step(num, bound))
}

fn metric<R: Fn(u64) -> Numeral, B: Fn(u64) -> String>(
    bytes: &[u8],
    render: &R,
    bound: &B,
) -> (r: Result<MetricJson, Error>)
    requires
        renders(render),
        writes(bound),
    ensures
        outcome(r) == metric_message(bytes@, numerals(render), bounds(bound)),
{
    let ghost step = metric_step(numerals(render), bounds(bound));
    let mut reader: Reader = Reader::new(bytes);
    let mut out: MetricJson = MetricJson::default();
    loop
        invariant
            renders(render),
            writes(bound),
            step == metric_step(numerals(render), bounds(bound)),
            reader@.bytes == bytes@,
            metric_message(bytes@, numerals(render), bounds(bound)) == folded(
                bytes@,
                reader@.pos,
                out@,
                step,
            ),
        decreases bytes@.len() - reader@.pos,
    {
        let (number, payload): (u32, Payload<&[u8]>) = match reader.field() {
            Ok(Some(field)) => field,
            Ok(None) => {
                return Ok(out);
            },
            Err(error) => {
                return Err(error);
            },
        };
        match payload {
            Payload::Bytes(nested) => {
                if number == 1 {
                    match text_of(nested, reader.position()) {
                        Ok(text) => {
                            out.name = text;
                        },
                        Err(error) => {
                            return Err(error);
                        },
                    }
                } else if number == 3 {
                    match text_of(nested, reader.position()) {
                        Ok(text) => {
                            out.unit = text;
                        },
                        Err(error) => {
                            return Err(error);
                        },
                    }
                } else if number == 5 {
                    match number_points(nested, render) {
                        Ok(value) => {
                            out.gauge = Some(NumberData { data_points: value });
                        },
                        Err(error) => {
                            return Err(error);
                        },
                    }
                } else if number == 7 {
                    match sum(nested, render) {
                        Ok(value) => {
                            out.sum = Some(value);
                        },
                        Err(error) => {
                            return Err(error);
                        },
                    }
                } else if number == 9 {
                    match histogram_points(nested, render, bound) {
                        Ok(value) => {
                            out.histogram = Some(value);
                        },
                        Err(error) => {
                            return Err(error);
                        },
                    }
                } else if number == 10 {
                    out.exponential_histogram = true;
                } else if number == 11 {
                    out.summary = true;
                }
            },
            _ => {},
        }
    }
}

pub open spec fn scope_metrics_step(num: Numerals, bound: Bounds) -> Step<ScopeMetricsView> {
    |out: ScopeMetricsView, number: u32, payload: PayloadView, at: int|
        match payload {
            Payload::Bytes(bytes) => if number == 1 {
                match scope_message(bytes, num) {
                    Ok(value) => Ok(ScopeMetricsView { scope: Some(value), ..out }),
                    Err(fault) => Err(fault),
                }
            } else if number == 2 {
                match pushed(out.metrics, metric_message(bytes, num, bound), "metrics"@) {
                    Ok(list) => Ok(ScopeMetricsView { metrics: list, ..out }),
                    Err(fault) => Err(fault),
                }
            } else {
                Ok(out)
            },
            _ => Ok(out),
        }
}

/// A `ScopeMetrics` message.
pub open spec fn scope_metrics_message(bytes: Seq<u8>, num: Numerals, bound: Bounds) -> Result<
    ScopeMetricsView,
    Fault,
> {
    folded(bytes, 0, ScopeMetricsView::none(), scope_metrics_step(num, bound))
}

fn scope_metrics<R: Fn(u64) -> Numeral, B: Fn(u64) -> String>(
    bytes: &[u8],
    render: &R,
    bound: &B,
) -> (r: Result<ScopeMetrics, Error>)
    requires
        renders(render),
        writes(bound),
    ensures
        outcome(r) == scope_metrics_message(bytes@, numerals(render), bounds(bound)),
{
    let ghost step = scope_metrics_step(numerals(render), bounds(bound));
    let mut reader: Reader = Reader::new(bytes);
    let mut out: ScopeMetrics = ScopeMetrics::default();
    loop
        invariant
            renders(render),
            writes(bound),
            step == scope_metrics_step(numerals(render), bounds(bound)),
            reader@.bytes == bytes@,
            scope_metrics_message(bytes@, numerals(render), bounds(bound)) == folded(
                bytes@,
                reader@.pos,
                out@,
                step,
            ),
        decreases bytes@.len() - reader@.pos,
    {
        let (number, payload): (u32, Payload<&[u8]>) = match reader.field() {
            Ok(Some(field)) => field,
            Ok(None) => {
                return Ok(out);
            },
            Err(error) => {
                return Err(error);
            },
        };
        match payload {
            Payload::Bytes(nested) => {
                if number == 1 {
                    match scope(nested, render) {
                        Ok(value) => {
                            out.scope = Some(value);
                        },
                        Err(error) => {
                            return Err(error);
                        },
                    }
                } else if number == 2 {
                    if out.metrics.len() >= MAX_REPEATED {
                        return Err(too_wide_error("metrics"));
                    }
                    match metric(nested, render, bound) {
                        Ok(value) => {
                            proof {
                                lemma_views_push(out.metrics@, value);
                            }
                            out.metrics.push(value);
                        },
                        Err(error) => {
                            return Err(error);
                        },
                    }
                }
            },
            _ => {},
        }
    }
}

pub open spec fn resource_metrics_step(num: Numerals, bound: Bounds) -> Step<ResourceMetricsView> {
    |out: ResourceMetricsView, number: u32, payload: PayloadView, at: int|
        match payload {
            Payload::Bytes(bytes) => if number == 1 {
                match resource_message(bytes, num) {
                    Ok(value) => Ok(ResourceMetricsView { resource: Some(value), ..out }),
                    Err(fault) => Err(fault),
                }
            } else if number == 2 {
                match pushed(out.scope_metrics, scope_metrics_message(bytes, num, bound), "scope_metrics"@) {
                    Ok(list) => Ok(ResourceMetricsView { scope_metrics: list, ..out }),
                    Err(fault) => Err(fault),
                }
            } else {
                Ok(out)
            },
            _ => Ok(out),
        }
}

/// A `ResourceMetrics` message.
pub open spec fn resource_metrics_message(bytes: Seq<u8>, num: Numerals, bound: Bounds) -> Result<
    ResourceMetricsView,
    Fault,
> {
    folded(bytes, 0, ResourceMetricsView::none(), resource_metrics_step(num, bound))
}

fn resource_metrics<R: Fn(u64) -> Numeral, B: Fn(u64) -> String>(
    bytes: &[u8],
    render: &R,
    bound: &B,
) -> (r: Result<ResourceMetrics, Error>)
    requires
        renders(render),
        writes(bound),
    ensures
        outcome(r) == resource_metrics_message(bytes@, numerals(render), bounds(bound)),
{
    let ghost step = resource_metrics_step(numerals(render), bounds(bound));
    let mut reader: Reader = Reader::new(bytes);
    let mut out: ResourceMetrics = ResourceMetrics::default();
    loop
        invariant
            renders(render),
            writes(bound),
            step == resource_metrics_step(numerals(render), bounds(bound)),
            reader@.bytes == bytes@,
            resource_metrics_message(bytes@, numerals(render), bounds(bound)) == folded(
                bytes@,
                reader@.pos,
                out@,
                step,
            ),
        decreases bytes@.len() - reader@.pos,
    {
        let (number, payload): (u32, Payload<&[u8]>) = match reader.field() {
            Ok(Some(field)) => field,
            Ok(None) => {
                return Ok(out);
            },
            Err(error) => {
                return Err(error);
            },
        };
        match payload {
            Payload::Bytes(nested) => {
                if number == 1 {
                    match resource(nested, render) {
                        Ok(value) => {
                            out.resource = Some(value);
                        },
                        Err(error) => {
                            return Err(error);
                        },
                    }
                } else if number == 2 {
                    if out.scope_metrics.len() >= MAX_REPEATED {
                        return Err(too_wide_error("scope_metrics"));
                    }
                    match scope_metrics(nested, render, bound) {
                        Ok(value) => {
                            proof {
                                lemma_views_push(out.scope_metrics@, value);
                            }
                            out.scope_metrics.push(value);
                        },
                        Err(error) => {
                            return Err(error);
                        },
                    }
                }
            },
            _ => {},
        }
    }
}

pub open spec fn metrics_step(num: Numerals, bound: Bounds) -> Step<Seq<ResourceMetricsView>> {
    |out: Seq<ResourceMetricsView>, number: u32, payload: PayloadView, at: int|
        match payload {
            Payload::Bytes(bytes) => if number == 1 {
                pushed(out, resource_metrics_message(bytes, num, bound), "resource_metrics"@)
            } else {
                Ok(out)
            },
            _ => Ok(out),
        }
}

/// An `ExportMetricsServiceRequest`.
pub open spec fn metrics_message(bytes: Seq<u8>, num: Numerals, bound: Bounds) -> Result<
    Seq<ResourceMetricsView>,
    Fault,
> {
    folded(bytes, 0, Seq::empty(), metrics_step(num, bound))
}

/// Reads an `ExportMetricsServiceRequest`, with `render` to write doubles and `bound` to
/// write bucket bounds.
pub fn metrics<R: Fn(u64) -> Numeral, B: Fn(u64) -> String>(
    bytes: &[u8],
    render: &R,
    bound: &B,
) -> (r: Result<MetricsData, Error>)
    requires
        renders(render),
        writes(bound),
    ensures
        outcome(r) == metrics_message(bytes@, numerals(render), bounds(bound)),
{
    let ghost step = metrics_step(numerals(render), bounds(bound));
    let mut reader: Reader = Reader::new(bytes);
    let mut out: MetricsData = MetricsData::default();
    loop
        invariant
            renders(render),
            writes(bound),
            step == metrics_step(numerals(render), bounds(bound)),
            reader@.bytes == bytes@,
            metrics_message(bytes@, numerals(render), bounds(bound)) == folded(
                bytes@,
                reader@.pos,
                out@,
                step,
            ),
        decreases bytes@.len() - reader@.pos,
    {
        let (number, payload): (u32, Payload<&[u8]>) = match reader.field() {
            Ok(Some(field)) => field,
            Ok(None) => {
                return Ok(out);
            },
            Err(error) => {
                return Err(error);
            },
        };
        match payload {
            Payload::Bytes(nested) => {
                if number == 1 {
                    if out.resource_metrics.len() >= MAX_REPEATED {
                        return Err(too_wide_error("resource_metrics"));
                    }
                    match resource_metrics(nested, render, bound) {
                        Ok(value) => {
                            proof {
                                lemma_views_push(out.resource_metrics@, value);
                            }
                            out.resource_metrics.push(value);
                        },
                        Err(error) => {
                            return Err(error);
                        },
                    }
                }
            },
            _ => {},
        }
    }
}

// ---------------------------------------------------------------------------
// Laws
// ---------------------------------------------------------------------------

/// A field that no message knows is skipped, as the format asks: it changes nothing. The
/// greatest field number that any of the messages knows is fifteen.
pub proof fn law_unknown_fields_are_skipped(
    number: u32,
    payload: PayloadView,
    at: int,
    depth: int,
    num: Numerals,
    bound: Bounds,
    value: AnyView,
    key: KeyView,
    record: LogRecordView,
    span: SpanJsonView,
    metric: MetricView,
    number_point: PointView,
    histogram_point: HistogramView,
)
    requires
        number > 15,
    ensures
        any_step(depth, num)(value, number, payload, at) == Ok::<AnyView, Fault>(value),
        key_step(depth, num)(key, number, payload, at) == Ok::<KeyView, Fault>(key),
        log_record_step(num)(record, number, payload, at) == Ok::<LogRecordView, Fault>(record),
        span_step(num)(span, number, payload, at) == Ok::<SpanJsonView, Fault>(span),
        metric_step(num, bound)(metric, number, payload, at) == Ok::<MetricView, Fault>(metric),
        number_point_step(num)(number_point, number, payload, at) == Ok::<PointView, Fault>(
            number_point,
        ),
        histogram_point_step(num, bound)(histogram_point, number, payload, at) == Ok::<
            HistogramView,
            Fault,
        >(histogram_point),
{
}

/// An id written in hexadecimal is read back as the same bytes.
pub proof fn law_ids_round_trip(bytes: Seq<u8>)
    ensures
        crate::pb::hex_bytes(hex_text(bytes)) == bytes,
{
    let text = hex_text(bytes);
    assert forall|i: int| 0 <= i < text.len() implies crate::text::is_hex_digit(#[trigger] text[i]) by {
        assert(0 <= bytes[i / 2] / 16 < 16);
    }
    let read = crate::pb::hex_bytes(text);
    assert(text.len() % 2 == 0);
    assert forall|i: int| 0 <= i < bytes.len() implies read[i] == #[trigger] bytes[i] by {
        assert((2 * i) / 2 == i && (2 * i + 1) / 2 == i);
        assert((2 * i) % 2 == 0 && (2 * i + 1) % 2 == 1);
        let high = (bytes[i] / 16) as int;
        let low = (bytes[i] % 16) as int;
        assert(crate::pb::hex_value(hex_char(high)) == high);
        assert(crate::pb::hex_value(hex_char(low)) == low);
    }
    assert(read =~= bytes);
}

/// Nothing is cut short: a list that is full refuses one more element.
pub proof fn law_a_full_list_refuses<T>(list: Seq<T>, item: Result<T, Fault>, field: Seq<char>)
    requires
        list.len() >= MAX_REPEATED,
    ensures
        pushed(list, item, field) == Err::<Seq<T>, Fault>(too_wide(field)),
{
}

} // verus!
