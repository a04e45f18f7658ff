//! What the OTLP decoder reads of a trace that the Tempo API writes.
use vstd::prelude::*;
use vstd::utf8::{
    encode_utf8, encode_utf8_decode_utf8, encode_utf8_first_scalar, encode_utf8_valid_utf8,
};

use crate::error::Fault;
use crate::labels::Pair;
use crate::otlp::{AnyView, FlexEnumView, KeyView, ScopeView};
use crate::otlp_encode::text_value;
use crate::otlp_protobuf::{
    any_message, any_step, enum_value, hex_char, hex_text, key_message, key_step, resource_message,
    resource_spans_message, resource_spans_step, resource_step, scope_message, scope_spans_message,
    scope_spans_step, scope_step, span_event_message, span_event_step, span_message, span_step,
    status_message, status_step, traces_message, traces_step, Numerals, MAX_REPEATED,
    MAX_VALUE_DEPTH,
};
use crate::pb::{
    all_hex, bytes_field, fixed64_field, hex_bytes, hex_value, law_fixed64_round_trip,
    law_message_round_trip, law_uint_round_trip, message_field, string_field, uint_field,
};
use crate::protobuf::{folded, Payload, Step};
use crate::record::SpanView;
use crate::tempo::{
    batch_bytes, event_bytes, fields_of, link_bytes, nanos_of, pair_bytes, pair_messages,
    scope_bytes, span_bytes, span_json, status_bytes, trace_bytes, unsigned, BatchView, EventView,
    LinkView, SpanJsonView,
};
use crate::text::{is_hex_digit, lower, lower_char};
use crate::traces::{EventJsonView, ResourceSpansView, ScopeSpansView, StatusView};
use crate::written::law_a_written_number_is_read_back;

verus! {

// ---------------------------------------------------------------------------
// What is read
// ---------------------------------------------------------------------------

/// Zero is not written, and what is not written is absent.
pub open spec fn unless_zero(n: nat) -> Option<u64> {
    if n == 0 {
        None
    } else {
        Some(n as u64)
    }
}

pub open spec fn number_unless_zero(n: nat) -> FlexEnumView {
    if n == 0 {
        FlexEnumView::Absent
    } else {
        FlexEnumView::Number(n as i32)
    }
}

/// An attribute as it is read. An empty text is not written, so its value has none.
pub open spec fn pair_read(pair: Pair) -> KeyView {
    KeyView {
        key: pair.0,
        value: Some(
            if pair.1.len() == 0 {
                AnyView::none()
            } else {
                text_value(pair.1)
            },
        ),
    }
}

pub open spec fn pairs_read(pairs: Seq<Pair>) -> Seq<KeyView> {
    pairs.map_values(|pair: Pair| pair_read(pair))
}

pub open spec fn event_read(event: EventView) -> EventJsonView {
    EventJsonView {
        time_unix_nano: unless_zero(nanos_of(event.time_unix_nano)),
        name: event.name,
        attributes: pairs_read(event.attributes),
    }
}

pub open spec fn status_read(status: (i32, Seq<char>)) -> StatusView {
    StatusView { code: number_unless_zero(unsigned(status.0)), message: status.1 }
}

/// A span as it is read. Links are not.
pub open spec fn span_read(span: SpanJsonView) -> crate::traces::SpanJsonView {
    crate::traces::SpanJsonView {
        trace_id: hex_text(hex_bytes(span.trace_id)),
        span_id: hex_text(hex_bytes(span.span_id)),
        parent_span_id: hex_text(hex_bytes(span.parent_span_id)),
        name: span.name,
        kind: number_unless_zero(unsigned(span.kind)),
        start_time_unix_nano: unless_zero(nanos_of(span.start_time_unix_nano)),
        end_time_unix_nano: unless_zero(nanos_of(span.end_time_unix_nano)),
        attributes: pairs_read(span.attributes),
        events: span.events.map_values(|event: EventView| event_read(event)),
        status: Some(status_read(span.status)),
    }
}

pub open spec fn scope_read(spans: Seq<SpanJsonView>) -> ScopeSpansView {
    ScopeSpansView {
        scope: Some(ScopeView::none()),
        spans: spans.map_values(|span: SpanJsonView| span_read(span)),
    }
}

pub open spec fn batch_read(batch: BatchView) -> ResourceSpansView {
    ResourceSpansView {
        resource: Some(pairs_read(batch.resource)),
        scope_spans: batch.scope_spans.map_values(
            |spans: Seq<SpanJsonView>| scope_read(spans),
        ),
    }
}

/// No list of a span is longer than the decoder takes in one request.
pub open spec fn span_not_too_wide(span: SpanJsonView) -> bool {
    &&& span.attributes.len() <= MAX_REPEATED
    &&& span.events.len() <= MAX_REPEATED
    &&& forall|e: int|
        0 <= e < span.events.len() ==> (#[trigger] span.events[e]).attributes.len() <= MAX_REPEATED
}

/// The same for the spans of a scope.
pub open spec fn scope_not_too_wide(spans: Seq<SpanJsonView>) -> bool {
    &&& spans.len() <= MAX_REPEATED
    &&& forall|i: int| 0 <= i < spans.len() ==> span_not_too_wide(#[trigger] spans[i])
}

/// The same for a batch.
pub open spec fn batch_not_too_wide(batch: BatchView) -> bool {
    &&& batch.resource.len() <= MAX_REPEATED
    &&& batch.scope_spans.len() <= MAX_REPEATED
    &&& forall|s: int|
        0 <= s < batch.scope_spans.len() ==> scope_not_too_wide(#[trigger] batch.scope_spans[s])
}

/// The same for every batch of a trace.
pub open spec fn not_too_wide(batches: Seq<BatchView>) -> bool {
    &&& batches.len() <= MAX_REPEATED
    &&& forall|b: int| 0 <= b < batches.len() ==> batch_not_too_wide(#[trigger] batches[b])
}

// ---------------------------------------------------------------------------
// Reading on from behind a field
// ---------------------------------------------------------------------------

proof fn lemma_done<T>(all: Seq<u8>, out: T, step: Step<T>)
    ensures
        folded(all, all.len() as int, out, step) == Ok::<T, Fault>(out),
{
}

/// A message field hands its payload to the step, and reading goes on behind it.
proof fn lemma_read_message<T>(
    pre: Seq<u8>,
    field: u32,
    payload: Seq<u8>,
    rest: Seq<u8>,
    out: T,
    after: T,
    step: Step<T>,
)
    requires
        payload.len() <= usize::MAX,
        step(
            out,
            field,
            Payload::Bytes(payload),
            (pre.len() + message_field(field as nat, payload).len()) as int,
        ) == Ok::<T, Fault>(after),
    ensures
        folded(
            pre + (message_field(field as nat, payload) + rest),
            pre.len() as int,
            out,
            step,
        ) == folded(
            (pre + message_field(field as nat, payload)) + rest,
            (pre + message_field(field as nat, payload)).len() as int,
            after,
            step,
        ),
{
    let piece = message_field(field as nat, payload);
    law_message_round_trip(pre, field, payload, rest);
    assert(pre + (piece + rest) =~= pre + piece + rest);
}

/// The same for a field of bytes that is left out where there are none.
proof fn lemma_read_bytes<T>(
    pre: Seq<u8>,
    field: u32,
    payload: Seq<u8>,
    rest: Seq<u8>,
    out: T,
    after: T,
    step: Step<T>,
)
    requires
        payload.len() <= usize::MAX,
        payload.len() == 0 ==> out == after,
        payload.len() > 0 ==> step(
            out,
            field,
            Payload::Bytes(payload),
            (pre.len() + message_field(field as nat, payload).len()) as int,
        ) == Ok::<T, Fault>(after),
    ensures
        folded(
            pre + (bytes_field(field as nat, payload) + rest),
            pre.len() as int,
            out,
            step,
        ) == folded(
            (pre + bytes_field(field as nat, payload)) + rest,
            (pre + bytes_field(field as nat, payload)).len() as int,
            after,
            step,
        ),
{
    if payload.len() == 0 {
        let piece = bytes_field(field as nat, payload);
        assert(pre + (piece + rest) =~= (pre + piece) + rest);
    } else {
        lemma_read_message(pre, field, payload, rest, out, after, step);
    }
}

/// The same for a number that is left out where it is zero.
proof fn lemma_read_uint<T>(
    pre: Seq<u8>,
    field: u32,
    value: u64,
    rest: Seq<u8>,
    out: T,
    after: T,
    step: Step<T>,
)
    requires
        value == 0 ==> out == after,
        value != 0 ==> step(
            out,
            field,
            Payload::Varint(value),
            (pre.len() + uint_field(field as nat, value as nat).len()) as int,
        ) == Ok::<T, Fault>(after),
    ensures
        folded(
            pre + (uint_field(field as nat, value as nat) + rest),
            pre.len() as int,
            out,
            step,
        ) == folded(
            (pre + uint_field(field as nat, value as nat)) + rest,
            (pre + uint_field(field as nat, value as nat)).len() as int,
            after,
            step,
        ),
{
    let piece = uint_field(field as nat, value as nat);
    assert(pre + (piece + rest) =~= pre + piece + rest);
    if value != 0 {
        law_uint_round_trip(pre, field, value, rest);
    }
}

/// The same for a number of eight bytes.
proof fn lemma_read_fixed64<T>(
    pre: Seq<u8>,
    field: u32,
    value: u64,
    rest: Seq<u8>,
    out: T,
    after: T,
    step: Step<T>,
)
    requires
        value == 0 ==> out == after,
        value != 0 ==> step(
            out,
            field,
            Payload::Fixed64(value),
            (pre.len() + fixed64_field(field as nat, value as nat).len()) as int,
        ) == Ok::<T, Fault>(after),
    ensures
        folded(
            pre + (fixed64_field(field as nat, value as nat) + rest),
            pre.len() as int,
            out,
            step,
        ) == folded(
            (pre + fixed64_field(field as nat, value as nat)) + rest,
            (pre + fixed64_field(field as nat, value as nat)).len() as int,
            after,
            step,
        ),
{
    let piece = fixed64_field(field as nat, value as nat);
    assert(pre + (piece + rest) =~= pre + piece + rest);
    if value != 0 {
        law_fixed64_round_trip(pre, field, value, rest);
    }
}

/// The same for messages one behind the other, where the step makes `acc(i + 1)` of
/// `acc(i)` and the `i`-th message.
proof fn lemma_read_fields<T>(
    pre: Seq<u8>,
    field: u32,
    messages: Seq<Seq<u8>>,
    rest: Seq<u8>,
    acc: spec_fn(int) -> T,
    step: Step<T>,
)
    requires
        forall|i: int| 0 <= i < messages.len() ==> (#[trigger] messages[i]).len() <= usize::MAX,
        forall|i: int, at: int|
            0 <= i < messages.len() ==> #[trigger] step(
                acc(i),
                field,
                Payload::Bytes(messages[i]),
                at,
            ) == Ok::<T, Fault>(acc(i + 1)),
    ensures
        folded(
            pre + (fields_of(field as nat, messages) + rest),
            pre.len() as int,
            acc(0),
            step,
        ) == folded(
            (pre + fields_of(field as nat, messages)) + rest,
            (pre + fields_of(field as nat, messages)).len() as int,
            acc(messages.len() as int),
            step,
        ),
    decreases messages.len(),
{
    let all = fields_of(field as nat, messages);
    if messages.len() == 0 {
        assert(pre + (all + rest) =~= (pre + all) + rest);
        assert((pre + all).len() == pre.len());
    } else {
        let front = messages.drop_last();
        let n = front.len() as int;
        let done = fields_of(field as nat, front);
        let piece = message_field(field as nat, messages.last());
        assert forall|i: int| 0 <= i < front.len() implies (#[trigger] front[i]).len()
            <= usize::MAX by {
            assert(front[i] == messages[i]);
        }
        assert forall|i: int, at: int| 0 <= i < front.len() implies #[trigger] step(
            acc(i),
            field,
            Payload::Bytes(front[i]),
            at,
        ) == Ok::<T, Fault>(acc(i + 1)) by {
            assert(front[i] == messages[i]);
        }
        lemma_read_fields(pre, field, front, piece + rest, acc, step);
        assert(messages.last() == messages[n]);
        assert(step(
            acc(n),
            field,
            Payload::Bytes(messages[n]),
            ((pre + done).len() + piece.len()) as int,
        ) == Ok::<T, Fault>(acc(n + 1)));
        lemma_read_message(pre + done, field, messages.last(), rest, acc(n), acc(n + 1), step);
        assert(pre + (all + rest) =~= pre + (done + (piece + rest)));
        assert((pre + done) + piece =~= pre + all);
        assert((pre + all) + rest =~= ((pre + done) + piece) + rest);
    }
}

/// A message is no longer than what holds it.
proof fn lemma_fields_len(field: nat, messages: Seq<Seq<u8>>, i: int)
    requires
        0 <= i < messages.len(),
    ensures
        messages[i].len() <= fields_of(field, messages).len(),
    decreases messages.len(),
{
    if i < messages.len() - 1 {
        assert(messages.drop_last()[i] == messages[i]);
        lemma_fields_len(field, messages.drop_last(), i);
    }
}

/// A text is read back from its UTF-8, and only the empty one has none.
pub proof fn lemma_text(text: Seq<char>, at: int)
    ensures
        crate::protobuf::text_value(encode_utf8(text), at) == Ok::<Seq<char>, Fault>(text),
        encode_utf8(text).len() == 0 <==> text.len() == 0,
{
    encode_utf8_valid_utf8(text);
    encode_utf8_decode_utf8(text);
    if text.len() > 0 {
        encode_utf8_first_scalar(text);
        if encode_utf8(text).len() == 0 {
            assert(encode_utf8(text) =~= encode_utf8(Seq::<char>::empty()));
            encode_utf8_decode_utf8(Seq::<char>::empty());
        }
    } else {
        assert(encode_utf8(text).len() == 0);
    }
}

// ---------------------------------------------------------------------------
// The messages
// ---------------------------------------------------------------------------

proof fn lemma_any(text: Seq<char>, depth: int, num: Numerals)
    requires
        depth <= MAX_VALUE_DEPTH,
        string_field(1, text).len() <= usize::MAX,
    ensures
        any_message(string_field(1, text), depth, num) == Ok::<AnyView, Fault>(
            if text.len() == 0 {
                AnyView::none()
            } else {
                text_value(text)
            },
        ),
{
    let step = any_step(depth, num);
    let none = Seq::<u8>::empty();
    let piece = string_field(1, text);
    let payload = encode_utf8(text);
    let at = (none.len() + message_field(1, payload).len()) as int;
    let after = if text.len() == 0 {
        AnyView::none()
    } else {
        text_value(text)
    };
    lemma_text(text, at);
    lemma_read_bytes(none, 1, payload, none, AnyView::none(), after, step);
    assert(none + (piece + none) =~= piece);
    assert((none + piece) + none =~= piece);
    lemma_done(piece, after, step);
}

proof fn lemma_pair(pair: Pair, num: Numerals)
    requires
        pair_bytes(pair).len() <= usize::MAX,
    ensures
        key_message(pair_bytes(pair), 0, num) == Ok::<KeyView, Fault>(pair_read(pair)),
{
    let step = key_step(0, num);
    let none = Seq::<u8>::empty();
    let inner = string_field(1, pair.1);
    let first = string_field(1, pair.0);
    let second = message_field(2, inner);
    let start = KeyView { key: Seq::empty(), value: None };
    let keyed = KeyView { key: pair.0, value: None };
    assert(pair_bytes(pair).len() >= first.len() + inner.len());
    let payload = encode_utf8(pair.0);
    lemma_text(pair.0, (none.len() + message_field(1, payload).len()) as int);
    assert(pair.0.len() == 0 ==> pair.0 =~= Seq::<char>::empty());
    lemma_read_bytes(none, 1, payload, second + none, start, keyed, step);
    lemma_any(pair.1, 1, num);
    lemma_read_message(none + first, 2, inner, none, keyed, pair_read(pair), step);
    let all = pair_bytes(pair);
    assert(none + (first + (second + none)) =~= all);
    assert((none + first) + (second + none) =~= all);
    assert(((none + first) + second) + none =~= all);
    lemma_done(all, pair_read(pair), step);
}

/// Every attribute of a list is read as it should be.
proof fn lemma_pairs(field: nat, pairs: Seq<Pair>, num: Numerals)
    requires
        fields_of(field, pair_messages(pairs)).len() <= usize::MAX,
    ensures
        forall|i: int|
            0 <= i < pairs.len() ==> (#[trigger] pair_messages(pairs)[i]).len() <= usize::MAX
                && key_message(pair_messages(pairs)[i], 0, num) == Ok::<KeyView, Fault>(
                pairs_read(pairs)[i],
            ),
{
    let messages = pair_messages(pairs);
    assert forall|i: int| 0 <= i < pairs.len() implies (#[trigger] messages[i]).len()
        <= usize::MAX && key_message(messages[i], 0, num) == Ok::<KeyView, Fault>(
        pairs_read(pairs)[i],
    ) by {
        lemma_fields_len(field, messages, i);
        assert(messages[i] == pair_bytes(pairs[i]));
        lemma_pair(pairs[i], num);
    }
}

proof fn lemma_resource(pairs: Seq<Pair>, num: Numerals)
    requires
        pairs.len() <= MAX_REPEATED,
        fields_of(1, pair_messages(pairs)).len() <= usize::MAX,
    ensures
        resource_message(fields_of(1, pair_messages(pairs)), num) == Ok::<Seq<KeyView>, Fault>(
            pairs_read(pairs),
        ),
{
    let step = resource_step(num);
    let none = Seq::<u8>::empty();
    let messages = pair_messages(pairs);
    let all = fields_of(1, messages);
    let read = pairs_read(pairs);
    let acc = |i: int| read.take(i);
    lemma_pairs(1, pairs, num);
    assert forall|i: int, at: int| 0 <= i < messages.len() implies #[trigger] step(
        acc(i),
        1,
        Payload::Bytes(messages[i]),
        at,
    ) == Ok::<Seq<KeyView>, Fault>(acc(i + 1)) by {
        assert(key_message(messages[i], 0, num) == Ok::<KeyView, Fault>(read[i]));
        assert(read.take(i + 1) =~= read.take(i).push(read[i]));
    }
    lemma_read_fields(none, 1, messages, none, acc, step);
    assert(acc(0) =~= Seq::empty());
    assert(acc(messages.len() as int) =~= read);
    assert(none + (all + none) =~= all);
    assert((none + all) + none =~= all);
    lemma_done(all, read, step);
}

proof fn lemma_event(event: EventView, num: Numerals)
    requires
        event.attributes.len() <= MAX_REPEATED,
        event_bytes(event).len() <= usize::MAX,
    ensures
        span_event_message(event_bytes(event), num) == Ok::<EventJsonView, Fault>(
            event_read(event),
        ),
{
    let step = span_event_step(num);
    let none = Seq::<u8>::empty();
    let nanos = nanos_of(event.time_unix_nano);
    assert(nanos <= u64::MAX);
    let messages = pair_messages(event.attributes);
    let p1 = fixed64_field(1, nanos);
    let p2 = string_field(2, event.name);
    let p3 = fields_of(3, messages);
    let all = event_bytes(event);
    assert(all.len() == p1.len() + p2.len() + p3.len());
    let out0 = EventJsonView::none();
    let out1 = EventJsonView { time_unix_nano: unless_zero(nanos), ..out0 };
    let out2 = EventJsonView { name: event.name, ..out1 };
    let read = pairs_read(event.attributes);
    let acc = |i: int| EventJsonView { attributes: read.take(i), ..out2 };
    let r3 = p3 + none;
    let r2 = p2 + r3;
    lemma_read_fixed64(none, 1, nanos as u64, r2, out0, out1, step);
    let pre1 = none + p1;
    let payload = encode_utf8(event.name);
    lemma_text(event.name, (pre1.len() + message_field(2, payload).len()) as int);
    assert(event.name.len() == 0 ==> event.name =~= Seq::<char>::empty());
    lemma_read_bytes(pre1, 2, payload, r3, out1, out2, step);
    let pre2 = pre1 + p2;
    lemma_pairs(3, event.attributes, num);
    assert forall|i: int, at: int| 0 <= i < messages.len() implies #[trigger] step(
        acc(i),
        3,
        Payload::Bytes(messages[i]),
        at,
    ) == Ok::<EventJsonView, Fault>(acc(i + 1)) by {
        assert(key_message(messages[i], 0, num) == Ok::<KeyView, Fault>(read[i]));
        assert(read.take(i + 1) =~= read.take(i).push(read[i]));
    }
    lemma_read_fields(pre2, 3, messages, none, acc, step);
    assert(read.take(0) =~= Seq::<KeyView>::empty());
    assert(acc(0) == out2);
    assert(read.take(messages.len() as int) =~= read);
    assert(none + (p1 + r2) =~= all);
    assert((pre2 + p3) + none =~= all);
    lemma_done(all, event_read(event), step);
}

proof fn lemma_status(status: (i32, Seq<char>), num: Numerals)
    requires
        status_bytes(status).len() <= usize::MAX,
    ensures
        status_message(status_bytes(status), num) == Ok::<StatusView, Fault>(status_read(status)),
{
    let step = status_step(num);
    let none = Seq::<u8>::empty();
    let code = unsigned(status.0);
    let p1 = string_field(2, status.1);
    let p2 = uint_field(3, code);
    let all = status_bytes(status);
    assert(all.len() == p1.len() + p2.len());
    let out0 = StatusView::none();
    let out1 = StatusView { message: status.1, ..out0 };
    let payload = encode_utf8(status.1);
    lemma_text(status.1, (none.len() + message_field(2, payload).len()) as int);
    assert(status.1.len() == 0 ==> status.1 =~= Seq::<char>::empty());
    lemma_read_bytes(none, 2, payload, p2 + none, out0, out1, step);
    assert(enum_value(code as u64) == code as i32);
    lemma_read_uint(none + p1, 3, code as u64, none, out1, status_read(status), step);
    assert(none + (p1 + (p2 + none)) =~= all);
    assert(((none + p1) + p2) + none =~= all);
    lemma_done(all, status_read(status), step);
}

proof fn lemma_assoc(a: Seq<u8>, b: Seq<u8>, c: Seq<u8>)
    ensures
        a + (b + c) == (a + b) + c,
{
    assert(a + (b + c) =~= (a + b) + c);
}

/// The fields of a span up to its times, one behind the other.
spec fn head_bytes(span: SpanJsonView) -> Seq<u8> {
    bytes_field(1, hex_bytes(span.trace_id)) + bytes_field(2, hex_bytes(span.span_id))
        + bytes_field(4, hex_bytes(span.parent_span_id)) + string_field(5, span.name)
        + uint_field(6, unsigned(span.kind)) + fixed64_field(
        7,
        nanos_of(span.start_time_unix_nano),
    ) + fixed64_field(8, nanos_of(span.end_time_unix_nano))
}

/// A span with what its first fields hold.
spec fn head_read(span: SpanJsonView) -> crate::traces::SpanJsonView {
    crate::traces::SpanJsonView {
        trace_id: hex_text(hex_bytes(span.trace_id)),
        span_id: hex_text(hex_bytes(span.span_id)),
        parent_span_id: hex_text(hex_bytes(span.parent_span_id)),
        name: span.name,
        kind: number_unless_zero(unsigned(span.kind)),
        start_time_unix_nano: unless_zero(nanos_of(span.start_time_unix_nano)),
        end_time_unix_nano: unless_zero(nanos_of(span.end_time_unix_nano)),
        ..crate::traces::SpanJsonView::none()
    }
}

proof fn lemma_span_ids(span: SpanJsonView, rest: Seq<u8>, num: Numerals)
    requires
        hex_bytes(span.trace_id).len() <= usize::MAX,
        hex_bytes(span.span_id).len() <= usize::MAX,
        hex_bytes(span.parent_span_id).len() <= usize::MAX,
    ensures
        ({
            let piece = bytes_field(1, hex_bytes(span.trace_id)) + bytes_field(
                2,
                hex_bytes(span.span_id),
            ) + bytes_field(4, hex_bytes(span.parent_span_id));
            folded(piece + rest, 0, crate::traces::SpanJsonView::none(), span_step(num)) == folded(
                piece + rest,
                piece.len() as int,
                crate::traces::SpanJsonView {
                    trace_id: hex_text(hex_bytes(span.trace_id)),
                    span_id: hex_text(hex_bytes(span.span_id)),
                    parent_span_id: hex_text(hex_bytes(span.parent_span_id)),
                    ..crate::traces::SpanJsonView::none()
                },
                span_step(num),
            )
        }),
{
    let step = span_step(num);
    let none = Seq::<u8>::empty();
    let p1 = bytes_field(1, hex_bytes(span.trace_id));
    let p2 = bytes_field(2, hex_bytes(span.span_id));
    let p4 = bytes_field(4, hex_bytes(span.parent_span_id));
    let out0 = crate::traces::SpanJsonView::none();
    let out1 = crate::traces::SpanJsonView {
        trace_id: hex_text(hex_bytes(span.trace_id)),
        ..out0
    };
    let out2 = crate::traces::SpanJsonView { span_id: hex_text(hex_bytes(span.span_id)), ..out1 };
    let out4 = crate::traces::SpanJsonView {
        parent_span_id: hex_text(hex_bytes(span.parent_span_id)),
        ..out2
    };
    lemma_no_id(span.trace_id);
    lemma_no_id(span.span_id);
    lemma_no_id(span.parent_span_id);
    let r4 = p4 + rest;
    let r2 = p2 + r4;
    lemma_read_bytes(none, 1, hex_bytes(span.trace_id), r2, out0, out1, step);
    assert(none + p1 =~= p1);
    lemma_read_bytes(p1, 2, hex_bytes(span.span_id), r4, out1, out2, step);
    lemma_read_bytes(p1 + p2, 4, hex_bytes(span.parent_span_id), rest, out2, out4, step);
    lemma_assoc(p1, p2, r4);
    lemma_assoc(p1 + p2, p4, rest);
    assert(none + (p1 + r2) =~= p1 + r2);
}

proof fn lemma_span_head(span: SpanJsonView, rest: Seq<u8>, num: Numerals)
    requires
        head_bytes(span).len() <= usize::MAX,
    ensures
        folded(head_bytes(span) + rest, 0, crate::traces::SpanJsonView::none(), span_step(num))
            == folded(
            head_bytes(span) + rest,
            head_bytes(span).len() as int,
            head_read(span),
            span_step(num),
        ),
{
    let step = span_step(num);
    let start = nanos_of(span.start_time_unix_nano);
    let end = nanos_of(span.end_time_unix_nano);
    assert(start <= u64::MAX && end <= u64::MAX);
    let kind = unsigned(span.kind);
    let ids = bytes_field(1, hex_bytes(span.trace_id)) + bytes_field(2, hex_bytes(span.span_id))
        + bytes_field(4, hex_bytes(span.parent_span_id));
    let p5 = string_field(5, span.name);
    let p6 = uint_field(6, kind);
    let p7 = fixed64_field(7, start);
    let p8 = fixed64_field(8, end);
    let r8 = p8 + rest;
    let r7 = p7 + r8;
    let r6 = p6 + r7;
    let r5 = p5 + r6;
    let out4 = crate::traces::SpanJsonView {
        trace_id: hex_text(hex_bytes(span.trace_id)),
        span_id: hex_text(hex_bytes(span.span_id)),
        parent_span_id: hex_text(hex_bytes(span.parent_span_id)),
        ..crate::traces::SpanJsonView::none()
    };
    let out5 = crate::traces::SpanJsonView { name: span.name, ..out4 };
    let out6 = crate::traces::SpanJsonView { kind: number_unless_zero(kind), ..out5 };
    let out7 = crate::traces::SpanJsonView { start_time_unix_nano: unless_zero(start), ..out6 };
    lemma_span_ids(span, r5, num);
    let payload = encode_utf8(span.name);
    lemma_text(span.name, (ids.len() + message_field(5, payload).len()) as int);
    assert(span.name.len() == 0 ==> span.name =~= Seq::<char>::empty());
    lemma_read_bytes(ids, 5, payload, r6, out4, out5, step);
    assert(enum_value(kind as u64) == kind as i32);
    lemma_read_uint(ids + p5, 6, kind as u64, r7, out5, out6, step);
    lemma_read_fixed64(ids + p5 + p6, 7, start as u64, r8, out6, out7, step);
    lemma_read_fixed64(ids + p5 + p6 + p7, 8, end as u64, rest, out7, head_read(span), step);
    lemma_assoc(ids, p5, r6);
    lemma_assoc(ids + p5, p6, r7);
    lemma_assoc(ids + p5 + p6, p7, r8);
    lemma_assoc(ids + p5 + p6 + p7, p8, rest);
}

proof fn lemma_span(span: SpanJsonView, num: Numerals)
    requires
        span_not_too_wide(span),
        span_bytes(span).len() <= usize::MAX,
    ensures
        span_message(span_bytes(span), num) == Ok::<crate::traces::SpanJsonView, Fault>(
            span_read(span),
        ),
{
    reveal(span_bytes);
    let step = span_step(num);
    let none = Seq::<u8>::empty();
    let all = span_bytes(span);
    let head = head_bytes(span);
    let links = span.links.map_values(|link: LinkView| link_bytes(link));
    let p9 = fields_of(9, pair_messages(span.attributes));
    let p11 = fields_of(11, span.events.map_values(|event: EventView| event_bytes(event)));
    let p13 = fields_of(13, links);
    let p15 = message_field(15, status_bytes(span.status));
    assert(all == head + p9 + p11 + p13 + p15);
    let r15 = p15 + none;
    let r13 = p13 + r15;
    let r11 = p11 + r13;
    let r9 = p9 + r11;
    let out9 = crate::traces::SpanJsonView {
        attributes: pairs_read(span.attributes),
        ..head_read(span)
    };
    let out11 = crate::traces::SpanJsonView { events: span_read(span).events, ..out9 };
    lemma_span_head(span, r9, num);
    lemma_span_attributes(head, span.attributes, r11, head_read(span), num);
    lemma_span_events(head + p9, span.events, r13, out9, num);
    let unchanged = |i: int| out11;
    assert forall|i: int| 0 <= i < links.len() implies (#[trigger] links[i]).len()
        <= usize::MAX by {
        lemma_fields_len(13, links, i);
    }
    assert forall|i: int, at: int| 0 <= i < links.len() implies #[trigger] step(
        unchanged(i),
        13,
        Payload::Bytes(links[i]),
        at,
    ) == Ok::<crate::traces::SpanJsonView, Fault>(unchanged(i + 1)) by {}
    lemma_read_fields(head + p9 + p11, 13, links, r15, unchanged, step);
    assert(status_bytes(span.status).len() <= p15.len());
    lemma_status(span.status, num);
    lemma_read_message(
        head + p9 + p11 + p13,
        15,
        status_bytes(span.status),
        none,
        out11,
        span_read(span),
        step,
    );
    lemma_assoc(head, p9, r11);
    lemma_assoc(head + p9, p11, r13);
    lemma_assoc(head + p9 + p11, p13, r15);
    lemma_assoc(head + p9 + p11 + p13, p15, none);
    assert(all + none =~= all);
    lemma_done(all, span_read(span), step);
}

/// No bytes are written for what is no id, and none are read.
proof fn lemma_no_id(id: Seq<char>)
    ensures
        hex_bytes(id).len() == 0 ==> hex_text(hex_bytes(id)) == Seq::<char>::empty(),
{
    if hex_bytes(id).len() == 0 {
        assert(hex_text(hex_bytes(id)) =~= Seq::<char>::empty());
    }
}

proof fn lemma_span_attributes(
    pre: Seq<u8>,
    pairs: Seq<Pair>,
    rest: Seq<u8>,
    out: crate::traces::SpanJsonView,
    num: Numerals,
)
    requires
        pairs.len() <= MAX_REPEATED,
        fields_of(9, pair_messages(pairs)).len() <= usize::MAX,
        out.attributes == Seq::<KeyView>::empty(),
    ensures
        ({
            let piece = fields_of(9, pair_messages(pairs));
            folded(pre + (piece + rest), pre.len() as int, out, span_step(num)) == folded(
                (pre + piece) + rest,
                (pre + piece).len() as int,
                crate::traces::SpanJsonView { attributes: pairs_read(pairs), ..out },
                span_step(num),
            )
        }),
{
    let step = span_step(num);
    let messages = pair_messages(pairs);
    let read = pairs_read(pairs);
    let acc = |i: int| crate::traces::SpanJsonView { attributes: read.take(i), ..out };
    lemma_pairs(9, pairs, num);
    assert forall|i: int, at: int| 0 <= i < messages.len() implies #[trigger] step(
        acc(i),
        9,
        Payload::Bytes(messages[i]),
        at,
    ) == Ok::<crate::traces::SpanJsonView, Fault>(acc(i + 1)) by {
        assert(key_message(messages[i], 0, num) == Ok::<KeyView, Fault>(read[i]));
        assert(read.take(i + 1) =~= read.take(i).push(read[i]));
    }
    lemma_read_fields(pre, 9, messages, rest, acc, step);
    assert(read.take(0) =~= Seq::<KeyView>::empty());
    assert(acc(0) == out);
    assert(read.take(messages.len() as int) =~= read);
}

proof fn lemma_span_events(
    pre: Seq<u8>,
    events: Seq<EventView>,
    rest: Seq<u8>,
    out: crate::traces::SpanJsonView,
    num: Numerals,
)
    requires
        events.len() <= MAX_REPEATED,
        forall|e: int|
            0 <= e < events.len() ==> (#[trigger] events[e]).attributes.len() <= MAX_REPEATED,
        fields_of(11, events.map_values(|event: EventView| event_bytes(event))).len()
            <= usize::MAX,
        out.events == Seq::<EventJsonView>::empty(),
    ensures
        ({
            let piece = fields_of(11, events.map_values(|event: EventView| event_bytes(event)));
            folded(pre + (piece + rest), pre.len() as int, out, span_step(num)) == folded(
                (pre + piece) + rest,
                (pre + piece).len() as int,
                crate::traces::SpanJsonView {
                    events: events.map_values(|event: EventView| event_read(event)),
                    ..out
                },
                span_step(num),
            )
        }),
{
    let step = span_step(num);
    let messages = events.map_values(|event: EventView| event_bytes(event));
    let read = events.map_values(|event: EventView| event_read(event));
    let acc = |i: int| crate::traces::SpanJsonView { events: read.take(i), ..out };
    assert forall|i: int| 0 <= i < messages.len() implies (#[trigger] messages[i]).len()
        <= usize::MAX by {
        lemma_fields_len(11, messages, i);
    }
    assert forall|i: int, at: int| 0 <= i < messages.len() implies #[trigger] step(
        acc(i),
        11,
        Payload::Bytes(messages[i]),
        at,
    ) == Ok::<crate::traces::SpanJsonView, Fault>(acc(i + 1)) by {
        lemma_fields_len(11, messages, i);
        assert(messages[i] == event_bytes(events[i]));
        lemma_event(events[i], num);
        assert(read.take(i + 1) =~= read.take(i).push(read[i]));
    }
    lemma_read_fields(pre, 11, messages, rest, acc, step);
    assert(read.take(0) =~= Seq::<EventJsonView>::empty());
    assert(acc(0) == out);
    assert(read.take(messages.len() as int) =~= read);
}

proof fn lemma_scope(spans: Seq<SpanJsonView>, num: Numerals)
    requires
        scope_not_too_wide(spans),
        scope_bytes(spans).len() <= usize::MAX,
    ensures
        scope_spans_message(scope_bytes(spans), num) == Ok::<ScopeSpansView, Fault>(
            scope_read(spans),
        ),
{
    reveal(scope_bytes);
    let step = scope_spans_step(num);
    let none = Seq::<u8>::empty();
    let messages = spans.map_values(|span: SpanJsonView| span_bytes(span));
    let p1 = message_field(1, none);
    let p2 = fields_of(2, messages);
    let all = scope_bytes(spans);
    assert(all.len() == p1.len() + p2.len());
    let out0 = ScopeSpansView::none();
    let out1 = ScopeSpansView { scope: Some(ScopeView::none()), ..out0 };
    lemma_done(none, ScopeView::none(), scope_step(num));
    assert(scope_message(none, num) == Ok::<ScopeView, Fault>(ScopeView::none()));
    lemma_read_message(none, 1, none, p2 + none, out0, out1, step);
    let read = scope_read(spans).spans;
    let acc = |i: int| ScopeSpansView { spans: read.take(i), ..out1 };
    assert forall|i: int| 0 <= i < messages.len() implies (#[trigger] messages[i]).len()
        <= usize::MAX by {
        lemma_fields_len(2, messages, i);
    }
    assert forall|i: int, at: int| 0 <= i < messages.len() implies #[trigger] step(
        acc(i),
        2,
        Payload::Bytes(messages[i]),
        at,
    ) == Ok::<ScopeSpansView, Fault>(acc(i + 1)) by {
        lemma_fields_len(2, messages, i);
        assert(messages[i] == span_bytes(spans[i]));
        assert(span_not_too_wide(spans[i]));
        lemma_span(spans[i], num);
        assert(read.take(i + 1) =~= read.take(i).push(read[i]));
    }
    lemma_read_fields(none + p1, 2, messages, none, acc, step);
    assert(read.take(0) =~= Seq::<crate::traces::SpanJsonView>::empty());
    assert(acc(0) == out1);
    assert(read.take(messages.len() as int) =~= read);
    assert(none + (p1 + (p2 + none)) =~= all);
    assert(((none + p1) + p2) + none =~= all);
    lemma_done(all, scope_read(spans), step);
}

proof fn lemma_batch(batch: BatchView, num: Numerals)
    requires
        batch_not_too_wide(batch),
        batch_bytes(batch).len() <= usize::MAX,
    ensures
        resource_spans_message(batch_bytes(batch), num) == Ok::<ResourceSpansView, Fault>(
            batch_read(batch),
        ),
{
    reveal(batch_bytes);
    let step = resource_spans_step(num);
    let none = Seq::<u8>::empty();
    let resource = fields_of(1, pair_messages(batch.resource));
    let messages = batch.scope_spans.map_values(|spans: Seq<SpanJsonView>| scope_bytes(spans));
    let p1 = message_field(1, resource);
    let p2 = fields_of(2, messages);
    let all = batch_bytes(batch);
    assert(all.len() == p1.len() + p2.len());
    assert(resource.len() <= p1.len());
    let out0 = ResourceSpansView::none();
    let out1 = ResourceSpansView { resource: Some(pairs_read(batch.resource)), ..out0 };
    lemma_resource(batch.resource, num);
    lemma_read_message(none, 1, resource, p2 + none, out0, out1, step);
    let read = batch_read(batch).scope_spans;
    let acc = |i: int| ResourceSpansView { scope_spans: read.take(i), ..out1 };
    assert forall|i: int| 0 <= i < messages.len() implies (#[trigger] messages[i]).len()
        <= usize::MAX by {
        lemma_fields_len(2, messages, i);
    }
    assert forall|i: int, at: int| 0 <= i < messages.len() implies #[trigger] step(
        acc(i),
        2,
        Payload::Bytes(messages[i]),
        at,
    ) == Ok::<ResourceSpansView, Fault>(acc(i + 1)) by {
        lemma_fields_len(2, messages, i);
        assert(messages[i] == scope_bytes(batch.scope_spans[i]));
        assert(scope_not_too_wide(batch.scope_spans[i]));
        lemma_scope(batch.scope_spans[i], num);
        assert(read.take(i + 1) =~= read.take(i).push(read[i]));
    }
    lemma_read_fields(none + p1, 2, messages, none, acc, step);
    assert(read.take(0) =~= Seq::<ScopeSpansView>::empty());
    assert(acc(0) == out1);
    assert(read.take(messages.len() as int) =~= read);
    assert(none + (p1 + (p2 + none)) =~= all);
    assert(((none + p1) + p2) + none =~= all);
    lemma_done(all, batch_read(batch), step);
}

// ---------------------------------------------------------------------------
// Laws
// ---------------------------------------------------------------------------

/// A trace that is written as protobuf is one that the OTLP decoder reads: batch by batch
/// and span by span what was written, but for the links, which the decoder does not keep.
pub proof fn law_a_written_trace_is_read(
    batches: Seq<BatchView>,
    num: Numerals,
)
    requires
        not_too_wide(batches),
        trace_bytes(batches).len() <= usize::MAX,
    ensures
        traces_message(trace_bytes(batches), num) == Ok::<Seq<ResourceSpansView>, Fault>(
            batches.map_values(|batch: BatchView| batch_read(batch)),
        ),
{
    let step = traces_step(num);
    let none = Seq::<u8>::empty();
    let messages = batches.map_values(|batch: BatchView| batch_bytes(batch));
    let all = trace_bytes(batches);
    let read = batches.map_values(|batch: BatchView| batch_read(batch));
    let acc = |i: int| read.take(i);
    assert forall|i: int| 0 <= i < messages.len() implies (#[trigger] messages[i]).len()
        <= usize::MAX by {
        lemma_fields_len(1, messages, i);
    }
    assert forall|i: int, at: int| 0 <= i < messages.len() implies #[trigger] step(
        acc(i),
        1,
        Payload::Bytes(messages[i]),
        at,
    ) == Ok::<Seq<ResourceSpansView>, Fault>(acc(i + 1)) by {
        lemma_fields_len(1, messages, i);
        assert(messages[i] == batch_bytes(batches[i]));
        assert(batch_not_too_wide(batches[i]));
        lemma_batch(batches[i], num);
        assert(read.take(i + 1) =~= read.take(i).push(read[i]));
    }
    lemma_read_fields(none, 1, messages, none, acc, step);
    assert(acc(0) =~= Seq::<ResourceSpansView>::empty());
    assert(acc(messages.len() as int) =~= read);
    assert(none + (all + none) =~= all);
    assert((none + all) + none =~= all);
    lemma_done(all, read, step);
}

/// An id as ingest stores it: pairs of lower-case hexadecimal digits.
pub open spec fn is_stored_id(id: Seq<char>) -> bool {
    id.len() % 2 == 0 && all_hex(id) && lower(id) == id
}

/// A stored id is read back from its bytes.
pub proof fn lemma_stored_id(id: Seq<char>)
    requires
        is_stored_id(id),
    ensures
        hex_text(hex_bytes(id)) == id,
{
    let bytes = hex_bytes(id);
    let text = hex_text(bytes);
    assert(text.len() == id.len());
    assert forall|i: int| 0 <= i < id.len() implies text[i] == #[trigger] id[i] by {
        let k = i / 2;
        let (high, low) = (id[2 * k], id[2 * k + 1]);
        assert(is_hex_digit(high) && is_hex_digit(low));
        assert(lower(id)[2 * k] == high && lower(id)[2 * k + 1] == low);
        assert(hex_value(high) < 16 && hex_value(low) < 16);
        assert(bytes[k] / 16 == hex_value(high) && bytes[k] % 16 == hex_value(low));
        lemma_hex_digit(high);
        lemma_hex_digit(low);
        assert(i == 2 * k || i == 2 * k + 1);
    }
    assert(text =~= id);
}

proof fn lemma_hex_digit(c: char)
    requires
        is_hex_digit(c),
        lower_char(c) == c,
    ensures
        hex_char(hex_value(c) as int) == c,
{
}

/// A stored span that the Tempo API writes as protobuf is read with the same ids, name,
/// kind, times, attributes and status.
pub proof fn law_a_stored_span_is_read_back(span: SpanView)
    requires
        is_stored_id(span.trace_id),
        is_stored_id(span.span_id),
        span.parent_span_id is Some ==> is_stored_id(span.parent_span_id->Some_0),
    ensures
        ({
            let read = span_read(span_json(span));
            &&& read.trace_id == span.trace_id
            &&& read.span_id == span.span_id
            &&& read.parent_span_id == (match span.parent_span_id {
                Some(id) => id,
                None => Seq::empty(),
            })
            &&& read.name == span.name
            &&& read.kind == number_unless_zero(span.kind.number() as nat)
            &&& read.start_time_unix_nano == unless_zero(span.start_nanos as nat)
            &&& read.end_time_unix_nano == unless_zero(span.end_nanos as nat)
            &&& read.attributes == pairs_read(span.attributes)
            &&& read.status == Some(
                StatusView {
                    code: number_unless_zero(span.status.number() as nat),
                    message: span.status_message,
                },
            )
        }),
{
    lemma_stored_id(span.trace_id);
    lemma_stored_id(span.span_id);
    match span.parent_span_id {
        Some(id) => {
            lemma_stored_id(id);
        },
        None => {
            assert(hex_bytes(Seq::<char>::empty()).len() == 0);
            lemma_no_id(Seq::<char>::empty());
        },
    }
    law_a_written_number_is_read_back(span.start_nanos as nat, u64::MAX as nat);
    law_a_written_number_is_read_back(span.end_nanos as nat, u64::MAX as nat);
}

} // verus!
