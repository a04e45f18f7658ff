//! The protobuf encoding of OTLP, field by field, and that the decoders read it.
//!
//! The encoding is stated on its own: which fields a message has, under which numbers and
//! in which wire types. What a decoder makes of the bytes is then what was written.
use vstd::prelude::*;
use vstd::utf8::encode_utf8;

use crate::error::Fault;
use crate::logs::{ContextView, LogRecordView, ResourceLogsView, ScopeLogsView};
use crate::otlp::{any_text, raw_of, signed_of, AnyView, FlexEnumView, KeyView, ScopeView};
use crate::otlp_metrics::{
    HistogramView, HistogramsView, MetricView, PointView, ResourceMetricsView, ScopeMetricsView,
    SumView,
};
use crate::otlp_protobuf::{
    any_message, any_step, array_step, base64_text, given, histogram_point_message,
    histogram_point_step, histogram_points_message, histogram_points_step, key_message, key_step,
    log_record_message, log_record_step, logs_message, logs_step, metric_message, metric_step,
    metrics_message, metrics_step, number_point_message, number_point_step, number_points_message,
    number_points_step, packed_from, pairs_step, resource_logs_message, resource_logs_step,
    resource_message, resource_metrics_message, resource_metrics_step, resource_spans_message,
    resource_spans_step, resource_step, scope_logs_message, scope_logs_step, scope_message,
    scope_metrics_message, scope_metrics_step, scope_spans_message, scope_spans_step, scope_step,
    span_event_message, span_event_step, span_message, span_step, status_message, status_step,
    sum_message, sum_step, traces_message, traces_step, written, Bounds, Numerals, MAX_REPEATED,
    MAX_VALUE_DEPTH,
};
use crate::pb::{
    hex_bytes, law_message_round_trip, le_bytes, le_limit, lemma_fixed32_read, lemma_fixed64_read,
    lemma_le_round_trip, lemma_varint_field_read, message_field, tag_bytes, varint_bytes,
};
use crate::protobuf::{folded, Payload, PayloadView, Step};
use crate::readback::{is_stored_id, lemma_stored_id, lemma_text};
use crate::text::{parse_signed, signed_decimal, trim};
use crate::traces::{EventJsonView, ResourceSpansView, ScopeSpansView, SpanJsonView, StatusView};
use crate::written::law_a_written_integer_is_read_back;

verus! {

// ---------------------------------------------------------------------------
// Messages
// ---------------------------------------------------------------------------

/// A field of a message: its number and its value.
pub type Field = (u32, PayloadView);

pub open spec fn field_bytes(field: Field) -> Seq<u8> {
    match field.1 {
        Payload::Varint(value) => tag_bytes(field.0 as nat, 0) + varint_bytes(value as nat),
        Payload::Fixed64(value) => tag_bytes(field.0 as nat, 1) + le_bytes(value as nat, 8),
        Payload::Bytes(bytes) => message_field(field.0 as nat, bytes),
        Payload::Fixed32 => tag_bytes(field.0 as nat, 5) + le_bytes(0, 4),
    }
}

/// A message: its fields one behind the other.
pub open spec fn message_bytes(fields: Seq<Field>) -> Seq<u8>
    decreases fields.len(),
{
    if fields.len() == 0 {
        Seq::empty()
    } else {
        message_bytes(fields.drop_last()) + field_bytes(fields.last())
    }
}

/// What the steps of a message make of its fields, in order.
pub open spec fn stepped<T>(fields: Seq<Field>, out: T, step: Step<T>) -> Result<T, Fault>
    decreases fields.len(),
{
    if fields.len() == 0 {
        Ok(out)
    } else {
        match stepped(fields.drop_last(), out, step) {
            Ok(mid) => step(mid, fields.last().0, fields.last().1, 0),
            Err(fault) => Err(fault),
        }
    }
}

/// Where a field stands changes nothing that is read of it.
pub open spec fn is_steady<T>(step: Step<T>) -> bool {
    forall|out: T, number: u32, payload: PayloadView, at: int|
        step(out, number, payload, 0) is Ok ==> #[trigger] step(out, number, payload, at) == step(
            out,
            number,
            payload,
            0,
        )
}

broadcast proof fn lemma_stepped_concat<T>(a: Seq<Field>, b: Seq<Field>, out: T, step: Step<T>)
    ensures
        #[trigger] stepped(a + b, out, step) == (match stepped(a, out, step) {
            Ok(mid) => stepped(b, mid, step),
            Err(fault) => Err(fault),
        }),
    decreases b.len(),
{
    if b.len() == 0 {
        assert(a + b =~= a);
    } else {
        let front = b.drop_last();
        lemma_stepped_concat(a, front, out, step);
        assert((a + b).drop_last() =~= a + front);
        assert((a + b).last() == b.last());
    }
}

broadcast proof fn lemma_message_concat(a: Seq<Field>, b: Seq<Field>)
    ensures
        #[trigger] message_bytes(a + b) == message_bytes(a) + message_bytes(b),
    decreases b.len(),
{
    if b.len() == 0 {
        assert(a + b =~= a);
    } else {
        let front = b.drop_last();
        lemma_message_concat(a, front);
        assert((a + b).drop_last() =~= a + front);
        assert((a + b).last() == b.last());
    }
}

/// A payload is no longer than its message.
proof fn lemma_payload_len(fields: Seq<Field>, i: int)
    requires
        0 <= i < fields.len(),
    ensures
        match fields[i].1 {
            Payload::Bytes(bytes) => bytes.len() <= message_bytes(fields).len(),
            _ => true,
        },
    decreases fields.len(),
{
    if i < fields.len() - 1 {
        assert(fields.drop_last()[i] == fields[i]);
        lemma_payload_len(fields.drop_last(), i);
    }
}

/// Reading from behind the first `n` fields.
proof fn lemma_folded_from<T>(
    fields: Seq<Field>,
    n: int,
    rest: Seq<u8>,
    out: T,
    step: Step<T>,
)
    requires
        0 <= n <= fields.len(),
        is_steady(step),
        stepped(fields.take(n), out, step) is Ok,
        forall|i: int|
            0 <= i < fields.len() && (#[trigger] fields[i]).1 is Bytes
                ==> fields[i].1->Bytes_0.len() <= usize::MAX,
    ensures
        folded(message_bytes(fields.take(n)) + rest, 0, out, step) == folded(
            message_bytes(fields.take(n)) + rest,
            message_bytes(fields.take(n)).len() as int,
            stepped(fields.take(n), out, step)->Ok_0,
            step,
        ),
    decreases n,
{
    let seen = fields.take(n);
    if n > 0 {
        let front = fields.take(n - 1);
        assert(seen.drop_last() =~= front);
        let field = fields[n - 1];
        assert(seen.last() == field);
        let piece = field_bytes(field);
        let before = message_bytes(front);
        lemma_folded_from(fields, n - 1, piece + rest, out, step);
        let mid = stepped(front, out, step)->Ok_0;
        let all = before + (piece + rest);
        assert(all =~= before + piece + rest);
        let at = (before.len() + piece.len()) as int;
        assert(step(mid, field.0, field.1, 0) is Ok);
        assert(step(mid, field.0, field.1, at) == step(mid, field.0, field.1, 0));
        match field.1 {
            Payload::Varint(value) => {
                lemma_varint_field_read(before, field.0, value, rest);
            },
            Payload::Fixed64(value) => {
                lemma_fixed64_read(before, field.0, value, rest);
            },
            Payload::Bytes(bytes) => {
                law_message_round_trip(before, field.0, bytes, rest);
            },
            Payload::Fixed32 => {
                lemma_fixed32_read(before, field.0, rest);
            },
        }
    } else {
        assert(seen =~= Seq::<Field>::empty());
    }
}

/// A message is read as its steps make it.
proof fn lemma_message_read<T>(fields: Seq<Field>, out: T, step: Step<T>)
    requires
        is_steady(step),
        stepped(fields, out, step) is Ok,
        message_bytes(fields).len() <= usize::MAX,
    ensures
        folded(message_bytes(fields), 0, out, step) == stepped(fields, out, step),
{
    let n = fields.len() as int;
    let none = Seq::<u8>::empty();
    assert(fields.take(n) =~= fields);
    assert forall|i: int|
        0 <= i < fields.len() && (#[trigger] fields[i]).1 is Bytes implies fields[i].1->Bytes_0.len()
        <= usize::MAX by {
        lemma_payload_len(fields, i);
    }
    lemma_folded_from(fields, n, none, out, step);
    assert(message_bytes(fields) + none =~= message_bytes(fields));
}

// ---------------------------------------------------------------------------
// Fields
// ---------------------------------------------------------------------------

/// A message or bytes that may be absent.
pub open spec fn maybe_bytes(number: u32, bytes: Option<Seq<u8>>) -> Seq<Field> {
    match bytes {
        Some(bytes) => seq![(number, Payload::Bytes(bytes))],
        None => Seq::empty(),
    }
}

pub open spec fn maybe_fixed(number: u32, value: Option<u64>) -> Seq<Field> {
    match value {
        Some(value) => seq![(number, Payload::Fixed64(value))],
        None => Seq::empty(),
    }
}

pub open spec fn maybe_varint(number: u32, value: Option<u64>) -> Seq<Field> {
    match value {
        Some(value) => seq![(number, Payload::Varint(value))],
        None => Seq::empty(),
    }
}

/// A text, which is left out where it is empty.
pub open spec fn text_field(number: u32, text: Seq<char>) -> Seq<Field> {
    if text.len() == 0 {
        Seq::empty()
    } else {
        seq![(number, Payload::Bytes(encode_utf8(text)))]
    }
}

/// The bytes of an id, which is left out where it is empty.
pub open spec fn id_field(number: u32, id: Seq<char>) -> Seq<Field> {
    if id.len() == 0 {
        Seq::empty()
    } else {
        seq![(number, Payload::Bytes(hex_bytes(id)))]
    }
}

pub open spec fn enum_field(number: u32, value: FlexEnumView) -> Seq<Field> {
    match value {
        FlexEnumView::Number(n) => seq![(number, Payload::Varint(n as u64))],
        _ => Seq::empty(),
    }
}

pub open spec fn repeated(number: u32, messages: Seq<Seq<u8>>) -> Seq<Field> {
    messages.map_values(|message: Seq<u8>| (number, Payload::Bytes(message)))
}

/// An enum that the wire can carry: a number that is not negative.
pub open spec fn enum_fits(value: FlexEnumView) -> bool {
    match value {
        FlexEnumView::Number(n) => n >= 0,
        FlexEnumView::Absent => true,
        FlexEnumView::Name(_) => false,
    }
}

proof fn lemma_one<T>(field: Field, out: T, step: Step<T>)
    ensures
        stepped(seq![field], out, step) == step(out, field.0, field.1, 0),
        message_bytes(seq![field]) == field_bytes(field),
{
    let fields = seq![field];
    assert(fields.drop_last() =~= Seq::<Field>::empty());
    assert(fields.last() == field);
    assert(stepped(fields.drop_last(), out, step) == Ok::<T, Fault>(out));
    assert(message_bytes(fields.drop_last()) =~= Seq::<u8>::empty());
    assert(message_bytes(fields) =~= field_bytes(field));
}

broadcast proof fn lemma_maybe_bytes<T>(
    number: u32,
    bytes: Option<Seq<u8>>,
    out: T,
    step: Step<T>,
)
    ensures
        #[trigger] stepped(maybe_bytes(number, bytes), out, step) == (match bytes {
            Some(bytes) => step(out, number, Payload::Bytes(bytes), 0),
            None => Ok(out),
        }),
{
    if let Some(bytes) = bytes {
        lemma_one((number, Payload::Bytes(bytes)), out, step);
    }
}

broadcast proof fn lemma_maybe_bytes_len(number: u32, bytes: Seq<u8>)
    ensures
        bytes.len() <= #[trigger] message_bytes(maybe_bytes(number, Some(bytes))).len(),
{
    lemma_payload_len(maybe_bytes(number, Some(bytes)), 0);
}

broadcast proof fn lemma_maybe_fixed<T>(number: u32, value: Option<u64>, out: T, step: Step<T>)
    ensures
        #[trigger] stepped(maybe_fixed(number, value), out, step) == (match value {
            Some(value) => step(out, number, Payload::Fixed64(value), 0),
            None => Ok(out),
        }),
{
    if let Some(value) = value {
        lemma_one((number, Payload::Fixed64(value)), out, step);
    }
}

broadcast proof fn lemma_maybe_varint<T>(number: u32, value: Option<u64>, out: T, step: Step<T>)
    ensures
        #[trigger] stepped(maybe_varint(number, value), out, step) == (match value {
            Some(value) => step(out, number, Payload::Varint(value), 0),
            None => Ok(out),
        }),
{
    if let Some(value) = value {
        lemma_one((number, Payload::Varint(value)), out, step);
    }
}

broadcast proof fn lemma_text_field<T>(number: u32, text: Seq<char>, out: T, step: Step<T>)
    ensures
        #[trigger] stepped(text_field(number, text), out, step) == (if text.len() == 0 {
            Ok(out)
        } else {
            step(out, number, Payload::Bytes(encode_utf8(text)), 0)
        }),
        text.len() == 0 ==> text == Seq::<char>::empty(),
{
    if text.len() > 0 {
        lemma_one((number, Payload::Bytes(encode_utf8(text))), out, step);
    } else {
        assert(text =~= Seq::<char>::empty());
    }
}

broadcast proof fn lemma_id_field<T>(number: u32, id: Seq<char>, out: T, step: Step<T>)
    ensures
        #[trigger] stepped(id_field(number, id), out, step) == (if id.len() == 0 {
            Ok(out)
        } else {
            step(out, number, Payload::Bytes(hex_bytes(id)), 0)
        }),
        id.len() == 0 ==> id == Seq::<char>::empty(),
{
    if id.len() > 0 {
        lemma_one((number, Payload::Bytes(hex_bytes(id))), out, step);
    } else {
        assert(id =~= Seq::<char>::empty());
    }
}

broadcast proof fn lemma_enum_field<T>(number: u32, value: FlexEnumView, out: T, step: Step<T>)
    ensures
        #[trigger] stepped(enum_field(number, value), out, step) == (match value {
            FlexEnumView::Number(n) => step(out, number, Payload::Varint(n as u64), 0),
            _ => Ok(out),
        }),
{
    if let FlexEnumView::Number(n) = value {
        lemma_one((number, Payload::Varint(n as u64)), out, step);
    }
}

broadcast proof fn lemma_repeated_len(number: u32, messages: Seq<Seq<u8>>, i: int)
    requires
        0 <= i < messages.len(),
    ensures
        #![trigger message_bytes(repeated(number, messages)), messages[i]]
        messages[i].len() <= message_bytes(repeated(number, messages)).len(),
{
    assert(repeated(number, messages)[i].1 == Payload::Bytes(messages[i]));
    lemma_payload_len(repeated(number, messages), i);
}

broadcast group group_fields {
    lemma_stepped_concat,
    lemma_message_concat,
    lemma_maybe_bytes,
    lemma_maybe_bytes_len,
    lemma_maybe_fixed,
    lemma_maybe_varint,
    lemma_text_field,
    lemma_id_field,
    lemma_enum_field,
    lemma_repeated_len,
}

/// Steps on repeated messages, each of which adds one item to a list.
proof fn lemma_many<T, V>(
    number: u32,
    messages: Seq<Seq<u8>>,
    items: Seq<V>,
    n: int,
    put: spec_fn(Seq<V>) -> T,
    step: Step<T>,
)
    requires
        messages.len() == items.len(),
        0 <= n <= items.len(),
        forall|i: int|
            0 <= i < items.len() ==> #[trigger] step(
                put(items.take(i)),
                number,
                Payload::Bytes(messages[i]),
                0,
            ) == Ok::<T, Fault>(put(items.take(i + 1))),
    ensures
        stepped(repeated(number, messages).take(n), put(Seq::empty()), step) == Ok::<T, Fault>(
            put(items.take(n)),
        ),
    decreases n,
{
    let all = repeated(number, messages);
    if n == 0 {
        assert(all.take(0) =~= Seq::<Field>::empty());
        assert(items.take(0) =~= Seq::<V>::empty());
    } else {
        lemma_many(number, messages, items, n - 1, put, step);
        assert(all.take(n).drop_last() =~= all.take(n - 1));
        assert(all.take(n).last() == all[n - 1]);
        assert(step(put(items.take(n - 1)), number, Payload::Bytes(messages[n - 1]), 0) == Ok::<
            T,
            Fault,
        >(put(items.take(n))));
    }
}

/// The same for all of them.
proof fn lemma_all<T, V>(
    number: u32,
    messages: Seq<Seq<u8>>,
    items: Seq<V>,
    put: spec_fn(Seq<V>) -> T,
    step: Step<T>,
)
    requires
        messages.len() == items.len(),
        forall|i: int|
            0 <= i < items.len() ==> #[trigger] step(
                put(items.take(i)),
                number,
                Payload::Bytes(messages[i]),
                0,
            ) == Ok::<T, Fault>(put(items.take(i + 1))),
    ensures
        stepped(repeated(number, messages), put(Seq::empty()), step) == Ok::<T, Fault>(put(items)),
{
    let n = items.len() as int;
    lemma_many(number, messages, items, n, put, step);
    assert(repeated(number, messages).take(n) =~= repeated(number, messages));
    assert(items.take(n) =~= items);
}

/// Steps on repeated messages that each append what they hold.
proof fn lemma_appended<T, V>(
    number: u32,
    messages: Seq<Seq<u8>>,
    items: Seq<V>,
    put: spec_fn(Seq<V>) -> T,
    step: Step<T>,
)
    requires
        messages.len() == items.len(),
        forall|list: Seq<V>, i: int|
            0 <= i < items.len() && list.len() == i ==> #[trigger] step(
                put(list),
                number,
                Payload::Bytes(messages[i]),
                0,
            ) == Ok::<T, Fault>(put(list.push(items[i]))),
    ensures
        stepped(repeated(number, messages), put(Seq::empty()), step) == Ok::<T, Fault>(put(items)),
{
    assert forall|i: int|
        0 <= i < items.len() implies #[trigger] step(
        put(items.take(i)),
        number,
        Payload::Bytes(messages[i]),
        0,
    ) == Ok::<T, Fault>(put(items.take(i + 1))) by {
        assert(items.take(i).push(items[i]) =~= items.take(i + 1));
    }
    lemma_all(number, messages, items, put, step);
}

// ---------------------------------------------------------------------------
// common.proto
// ---------------------------------------------------------------------------

/// The bytes that a text writes in base 64.
pub open spec fn unbase64(text: Seq<char>) -> Seq<u8> {
    choose|bytes: Seq<u8>| base64_text(bytes) == text
}

pub open spec fn any_fields(v: AnyView) -> Seq<Field>
    decreases v, 1nat,
{
    maybe_bytes(
        1,
        match v.string_value {
            Some(text) => Some(encode_utf8(text)),
            None => None,
        },
    ) + maybe_varint(
        2,
        match v.bool_value {
            Some(flag) => Some(
                if flag {
                    1
                } else {
                    0
                },
            ),
            None => None,
        },
    ) + maybe_varint(
        3,
        match v.int_value {
            Some(n) => Some(raw_of(n)),
            None => None,
        },
    ) + maybe_fixed(
        4,
        match v.double_value {
            Some(double) => Some(double.bits),
            None => None,
        },
    ) + maybe_bytes(
        5,
        match v.array_value {
            Some(values) => Some(message_bytes(repeated(1, any_messages(values)))),
            None => None,
        },
    ) + maybe_bytes(
        6,
        match v.kvlist_value {
            Some(entries) => Some(message_bytes(repeated(1, key_messages(entries)))),
            None => None,
        },
    ) + maybe_bytes(
        7,
        match v.bytes_value {
            Some(text) => Some(unbase64(text)),
            None => None,
        },
    )
}

/// An `AnyValue` message.
pub open spec fn any_bytes(v: AnyView) -> Seq<u8>
    decreases v, 2nat,
{
    message_bytes(any_fields(v))
}

pub open spec fn any_messages(values: Seq<AnyView>) -> Seq<Seq<u8>>
    decreases values, 0nat,
{
    Seq::new(
        values.len(),
        |i: int|
            if 0 <= i < values.len() {
                any_bytes(values[i])
            } else {
                Seq::empty()
            },
    )
}

pub open spec fn key_fields(kv: KeyView) -> Seq<Field>
    decreases kv, 1nat,
{
    text_field(1, kv.key) + maybe_bytes(
        2,
        match kv.value {
            Some(value) => Some(any_bytes(value)),
            None => None,
        },
    )
}

/// A `KeyValue` message.
pub open spec fn key_bytes(kv: KeyView) -> Seq<u8>
    decreases kv, 2nat,
{
    message_bytes(key_fields(kv))
}

pub open spec fn key_messages(entries: Seq<KeyView>) -> Seq<Seq<u8>>
    decreases entries, 0nat,
{
    Seq::new(
        entries.len(),
        |i: int|
            if 0 <= i < entries.len() {
                key_bytes(entries[i])
            } else {
                Seq::empty()
            },
    )
}

/// A value that the wire can carry at a depth: not nested too deep, its lists not too long,
/// its doubles written as they are rendered, its bytes in base 64.
pub open spec fn any_fits(v: AnyView, depth: int, num: Numerals) -> bool
    decreases v, 1nat,
{
    &&& depth <= MAX_VALUE_DEPTH
    &&& match v.double_value {
        Some(double) => double == num(double.bits),
        None => true,
    }
    &&& match v.bytes_value {
        Some(text) => exists|bytes: Seq<u8>| base64_text(bytes) == text,
        None => true,
    }
    &&& match v.array_value {
        Some(values) => values.len() <= MAX_REPEATED && forall|i: int|
            0 <= i < values.len() ==> any_fits(#[trigger] values[i], depth + 1, num),
        None => true,
    }
    &&& match v.kvlist_value {
        Some(entries) => entries.len() <= MAX_REPEATED && forall|i: int|
            0 <= i < entries.len() ==> key_fits(#[trigger] entries[i], depth + 1, num),
        None => true,
    }
}

pub open spec fn key_fits(kv: KeyView, depth: int, num: Numerals) -> bool
    decreases kv, 1nat,
{
    match kv.value {
        Some(value) => any_fits(value, depth + 1, num),
        None => true,
    }
}

/// The values of a list are read back.
proof fn lemma_any_list(items: Seq<AnyView>, depth: int, num: Numerals)
    requires
        depth <= MAX_VALUE_DEPTH,
        items.len() <= MAX_REPEATED,
        forall|i: int| 0 <= i < items.len() ==> any_fits(#[trigger] items[i], depth + 1, num),
        message_bytes(repeated(1, any_messages(items))).len() <= usize::MAX,
    ensures
        folded(
            message_bytes(repeated(1, any_messages(items))),
            0,
            Seq::empty(),
            array_step(depth, num),
        )
            == Ok::<Seq<AnyView>, Fault>(items),
    decreases items, 0nat,
{
    let messages = any_messages(items);
    let step = array_step(depth, num);
    let put = |list: Seq<AnyView>| list;
    assert forall|i: int|
        0 <= i < items.len() implies #[trigger] step(
        put(items.take(i)),
        1,
        Payload::Bytes(messages[i]),
        0,
    ) == Ok::<Seq<AnyView>, Fault>(put(items.take(i + 1))) by {
        lemma_repeated_len(1, messages, i);
        lemma_any(items[i], depth + 1, num);
        assert(items.take(i).push(items[i]) =~= items.take(i + 1));
    }
    lemma_all(1, messages, items, put, step);
    lemma_message_read(repeated(1, messages), Seq::empty(), step);
}

/// The entries of a list are read back.
proof fn lemma_key_list(items: Seq<KeyView>, depth: int, num: Numerals)
    requires
        depth <= MAX_VALUE_DEPTH,
        items.len() <= MAX_REPEATED,
        forall|i: int| 0 <= i < items.len() ==> key_fits(#[trigger] items[i], depth + 1, num),
        message_bytes(repeated(1, key_messages(items))).len() <= usize::MAX,
    ensures
        folded(
            message_bytes(repeated(1, key_messages(items))),
            0,
            Seq::empty(),
            pairs_step(depth, num),
        )
            == Ok::<Seq<KeyView>, Fault>(items),
    decreases items, 0nat,
{
    let messages = key_messages(items);
    let step = pairs_step(depth, num);
    let put = |list: Seq<KeyView>| list;
    assert forall|i: int|
        0 <= i < items.len() implies #[trigger] step(
        put(items.take(i)),
        1,
        Payload::Bytes(messages[i]),
        0,
    ) == Ok::<Seq<KeyView>, Fault>(put(items.take(i + 1))) by {
        lemma_repeated_len(1, messages, i);
        lemma_key(items[i], depth + 1, num);
        assert(items.take(i).push(items[i]) =~= items.take(i + 1));
    }
    lemma_all(1, messages, items, put, step);
    lemma_message_read(repeated(1, messages), Seq::empty(), step);
}

/// The lists of a value are no longer than the value.
proof fn lemma_any_lists_len(v: AnyView)
    ensures
        match v.array_value {
            Some(values) => message_bytes(repeated(1, any_messages(values))).len() <= any_bytes(
                v,
            ).len(),
            None => true,
        },
        match v.kvlist_value {
            Some(entries) => message_bytes(repeated(1, key_messages(entries))).len() <= any_bytes(
                v,
            ).len(),
            None => true,
        },
{
    broadcast use {lemma_message_concat, lemma_maybe_bytes_len};

}

/// The fields of a value give it back, once its lists do.
proof fn lemma_any_steps(v: AnyView, depth: int, num: Numerals)
    requires
        any_fits(v, depth, num),
        match v.array_value {
            Some(values) => folded(
                message_bytes(repeated(1, any_messages(values))),
                0,
                Seq::empty(),
                array_step(depth, num),
            ) == Ok::<Seq<AnyView>, Fault>(values),
            None => true,
        },
        match v.kvlist_value {
            Some(entries) => folded(
                message_bytes(repeated(1, key_messages(entries))),
                0,
                Seq::empty(),
                pairs_step(depth, num),
            ) == Ok::<Seq<KeyView>, Fault>(entries),
            None => true,
        },
    ensures
        stepped(any_fields(v), AnyView::none(), any_step(depth, num)) == Ok::<AnyView, Fault>(v),
{
    let step = any_step(depth, num);
    if let Some(text) = v.string_value {
        lemma_text(text, 0);
    }
    let v0 = AnyView::none();
    let v1 = AnyView { string_value: v.string_value, ..v0 };
    let sent1 = match v.string_value {
        Some(text) => Some(encode_utf8(text)),
        None => None,
    };
    let part1 = maybe_bytes(1, sent1);
    lemma_maybe_bytes(1, sent1, v0, step);
    assert(stepped(part1, v0, step) == Ok::<AnyView, Fault>(v1));
    let v2 = AnyView { bool_value: v.bool_value, ..v1 };
    let sent2 = match v.bool_value {
        Some(flag) => Some(
            if flag {
                1
            } else {
                0
            },
        ),
        None => None,
    };
    let part2 = maybe_varint(2, sent2);
    lemma_maybe_varint(2, sent2, v1, step);
    assert(stepped(part2, v1, step) == Ok::<AnyView, Fault>(v2));
    lemma_stepped_concat(part1, part2, v0, step);
    let v3 = AnyView { int_value: v.int_value, ..v2 };
    let sent3 = match v.int_value {
        Some(n) => Some(raw_of(n)),
        None => None,
    };
    let part3 = maybe_varint(3, sent3);
    lemma_maybe_varint(3, sent3, v2, step);
    assert(stepped(part3, v2, step) == Ok::<AnyView, Fault>(v3));
    lemma_stepped_concat(part1 + part2, part3, v0, step);
    let v4 = AnyView { double_value: v.double_value, ..v3 };
    let sent4 = match v.double_value {
        Some(double) => Some(double.bits),
        None => None,
    };
    let part4 = maybe_fixed(4, sent4);
    lemma_maybe_fixed(4, sent4, v3, step);
    assert(stepped(part4, v3, step) == Ok::<AnyView, Fault>(v4));
    lemma_stepped_concat(part1 + part2 + part3, part4, v0, step);
    let v5 = AnyView { array_value: v.array_value, ..v4 };
    let sent5 = match v.array_value {
        Some(values) => Some(message_bytes(repeated(1, any_messages(values)))),
        None => None,
    };
    let part5 = maybe_bytes(5, sent5);
    lemma_maybe_bytes(5, sent5, v4, step);
    assert(stepped(part5, v4, step) == Ok::<AnyView, Fault>(v5));
    lemma_stepped_concat(part1 + part2 + part3 + part4, part5, v0, step);
    let v6 = AnyView { kvlist_value: v.kvlist_value, ..v5 };
    let sent6 = match v.kvlist_value {
        Some(entries) => Some(message_bytes(repeated(1, key_messages(entries)))),
        None => None,
    };
    let part6 = maybe_bytes(6, sent6);
    lemma_maybe_bytes(6, sent6, v5, step);
    assert(stepped(part6, v5, step) == Ok::<AnyView, Fault>(v6));
    lemma_stepped_concat(part1 + part2 + part3 + part4 + part5, part6, v0, step);
    let v7 = AnyView { bytes_value: v.bytes_value, ..v6 };
    let sent7 = match v.bytes_value {
        Some(text) => Some(unbase64(text)),
        None => None,
    };
    let part7 = maybe_bytes(7, sent7);
    lemma_maybe_bytes(7, sent7, v6, step);
    assert(stepped(part7, v6, step) == Ok::<AnyView, Fault>(v7));
    lemma_stepped_concat(part1 + part2 + part3 + part4 + part5 + part6, part7, v0, step);
}

/// A value is read back.
proof fn lemma_any(v: AnyView, depth: int, num: Numerals)
    requires
        any_fits(v, depth, num),
        any_bytes(v).len() <= usize::MAX,
    ensures
        any_message(any_bytes(v), depth, num) == Ok::<AnyView, Fault>(v),
    decreases v, 1nat,
{
    lemma_any_lists_len(v);
    if let Some(values) = v.array_value {
        lemma_any_list(values, depth, num);
    }
    if let Some(entries) = v.kvlist_value {
        lemma_key_list(entries, depth, num);
    }
    lemma_any_steps(v, depth, num);
    lemma_message_read(any_fields(v), AnyView::none(), any_step(depth, num));
}

/// An attribute is read back.
proof fn lemma_key(kv: KeyView, depth: int, num: Numerals)
    requires
        key_fits(kv, depth, num),
        key_bytes(kv).len() <= usize::MAX,
    ensures
        key_message(key_bytes(kv), depth, num) == Ok::<KeyView, Fault>(kv),
    decreases kv, 1nat,
{
    broadcast use group_fields;

    let step = key_step(depth, num);
    let none = KeyView { key: Seq::empty(), value: None };
    assert(is_steady(step));
    lemma_text(kv.key, 0);
    if let Some(value) = kv.value {
        lemma_any(value, depth + 1, num);
    }
    assert(stepped(key_fields(kv), none, step) == Ok::<KeyView, Fault>(kv));
    lemma_message_read(key_fields(kv), none, step);
}

/// Attributes that the wire can carry.
pub open spec fn attributes_fit(attributes: Seq<KeyView>, num: Numerals) -> bool {
    attributes.len() <= MAX_REPEATED && forall|i: int| 0 <= i < attributes.len()
        ==> key_fits(#[trigger] attributes[i], 0, num)
}

/// Each attribute is what is read of its message.
spec fn attributes_read(attributes: Seq<KeyView>, num: Numerals) -> bool {
    forall|i: int|
        0 <= i < attributes.len() ==> key_message(#[trigger] key_messages(attributes)[i], 0, num)
            == Ok::<KeyView, Fault>(attributes[i])
}

/// Each attribute is read back.
proof fn lemma_attributes(number: u32, attributes: Seq<KeyView>, num: Numerals)
    requires
        attributes_fit(attributes, num),
        message_bytes(repeated(number, key_messages(attributes))).len() <= usize::MAX,
    ensures
        attributes_read(attributes, num),
{
    let messages = key_messages(attributes);
    assert forall|i: int|
        0 <= i < attributes.len() implies key_message(
        #[trigger] messages[i],
        0,
        num,
    ) == Ok::<KeyView, Fault>(attributes[i]) by {
        lemma_repeated_len(number, messages, i);
        lemma_key(attributes[i], 0, num);
    }
}

/// Law: an integer attribute is the same in both encodings, negative or not. On the wire it
/// is a varint in two's complement and in JSON a decimal text; either is read as the number
/// that was sent, and shown as its decimal text.
pub proof fn law_integers_agree(n: i64, depth: int, num: Numerals)
    requires
        depth <= MAX_VALUE_DEPTH,
    ensures
        ({
            let sent = AnyView { int_value: Some(n), ..AnyView::none() };
            &&& any_message(tag_bytes(3, 0) + varint_bytes(raw_of(n) as nat), depth, num) == Ok::<
                AnyView,
                Fault,
            >(sent)
            &&& parse_signed(trim(signed_decimal(n as int))) == Some(n as int)
            &&& any_text(sent) == Some(signed_decimal(n as int))
        }),
{
    let none = Seq::<u8>::empty();
    let piece = tag_bytes(3, 0) + varint_bytes(raw_of(n) as nat);
    let step = any_step(depth, num);
    let sent = AnyView { int_value: Some(n), ..AnyView::none() };
    lemma_varint_field_read(none, 3, raw_of(n), none);
    assert(none + piece + none =~= piece);
    assert(signed_of(raw_of(n)) == n);
    assert(folded(piece, piece.len() as int, sent, step) == Ok::<AnyView, Fault>(sent));
    law_a_written_integer_is_read_back(n);
}

// ---------------------------------------------------------------------------
// resource.proto
// ---------------------------------------------------------------------------

pub open spec fn resource_fields(v: Seq<KeyView>) -> Seq<Field> {
    repeated(1, key_messages(v))
}

/// A `Resource` message.
pub open spec fn resource_bytes(v: Seq<KeyView>) -> Seq<u8> {
    message_bytes(resource_fields(v))
}

/// What the wire can carry of it.
pub open spec fn resource_fits(v: Seq<KeyView>, num: Numerals) -> bool {
    &&& attributes_fit(v, num)
}

#[verifier::spinoff_prover]
#[verifier::rlimit(50)]
proof fn lemma_resource(v: Seq<KeyView>, num: Numerals)
    requires
        resource_fits(v, num),
        resource_bytes(v).len() <= usize::MAX,
    ensures
        resource_message(resource_bytes(v), num) == Ok::<Seq<KeyView>, Fault>(v),
{
    broadcast use group_fields;

    let step = resource_step(num);
    let none = Seq::<KeyView>::empty();
    let messages = key_messages(v);
    let put = |list: Seq<KeyView>| list;
    lemma_attributes(1, v, num);
    assert forall|list: Seq<KeyView>, i: int|
        0 <= i < v.len() && list.len() == i implies #[trigger] step(
        put(list),
        1,
        Payload::Bytes(messages[i]),
        0,
    ) == Ok::<Seq<KeyView>, Fault>(put(list.push(v[i]))) by {
    }
    lemma_appended(1, messages, v, put, step);
    assert(stepped(resource_fields(v), none, step) == Ok::<Seq<KeyView>, Fault>(v));
    lemma_message_read(resource_fields(v), none, step);
}

pub open spec fn scope_fields(v: ScopeView) -> Seq<Field> {
    text_field(1, v.name) + text_field(2, v.version) + repeated(3, key_messages(v.attributes))
}

/// An `InstrumentationScope` message.
pub open spec fn scope_bytes(v: ScopeView) -> Seq<u8> {
    message_bytes(scope_fields(v))
}

/// What the wire can carry of it.
pub open spec fn scope_fits(v: ScopeView, num: Numerals) -> bool {
    &&& attributes_fit(v.attributes, num)
}

#[verifier::spinoff_prover]
#[verifier::rlimit(50)]
proof fn lemma_scope(v: ScopeView, num: Numerals)
    requires
        scope_fits(v, num),
        scope_bytes(v).len() <= usize::MAX,
    ensures
        scope_message(scope_bytes(v), num) == Ok::<ScopeView, Fault>(v),
{
    broadcast use group_fields;

    let step = scope_step(num);
    let none = ScopeView::none();
    lemma_text(v.name, 0);
    lemma_text(v.version, 0);
    let mid = ScopeView { name: v.name, version: v.version, ..none };
    let messages = key_messages(v.attributes);
    let put = |list: Seq<KeyView>| ScopeView { attributes: list, ..mid };
    lemma_attributes(3, v.attributes, num);
    assert forall|list: Seq<KeyView>, i: int|
        0 <= i < v.attributes.len() && list.len() == i implies #[trigger] step(
        put(list),
        3,
        Payload::Bytes(messages[i]),
        0,
    ) == Ok::<ScopeView, Fault>(put(list.push(v.attributes[i]))) by {
    }
    lemma_appended(3, messages, v.attributes, put, step);
    assert(stepped(scope_fields(v), none, step) == Ok::<ScopeView, Fault>(v));
    lemma_message_read(scope_fields(v), none, step);
}

// ---------------------------------------------------------------------------
// logs.proto
// ---------------------------------------------------------------------------

pub open spec fn log_record_fields(v: LogRecordView) -> Seq<Field> {
    maybe_fixed(1, v.time_unix_nano) + enum_field(2, v.severity_number)
        + text_field(3, v.severity_text) + maybe_bytes(
        5,
        match v.body {
            Some(inner) => Some(any_bytes(inner)),
            None => None,
        },
    ) + repeated(6, key_messages(v.attributes)) + id_field(9, v.trace_id)
        + id_field(10, v.span_id) + maybe_fixed(11, v.observed_time_unix_nano)
}

/// A `LogRecord` message.
pub open spec fn log_record_bytes(v: LogRecordView) -> Seq<u8> {
    message_bytes(log_record_fields(v))
}

/// What the wire can carry of it.
pub open spec fn log_record_fits(v: LogRecordView, num: Numerals) -> bool {
    &&& enum_fits(v.severity_number)
    &&& match v.body {
        Some(inner) => any_fits(inner, 0, num),
        None => true,
    }
    &&& attributes_fit(v.attributes, num)
    &&& is_stored_id(v.trace_id)
    &&& is_stored_id(v.span_id)
}

/// What it holds is no longer than it.
proof fn lemma_log_record_len(v: LogRecordView)
    ensures
        match v.body {
            Some(inner) => any_bytes(inner).len() <= log_record_bytes(v).len(),
            None => true,
        },
        message_bytes(repeated(6, key_messages(v.attributes))).len() <= log_record_bytes(v).len(),
{
    broadcast use {lemma_message_concat, lemma_maybe_bytes_len};

}

/// Its fields give it back, once what it holds is read back.
proof fn lemma_log_record_steps(v: LogRecordView, num: Numerals)
    requires
        log_record_fits(v, num),
        match v.body {
            Some(inner) => any_message(any_bytes(inner), 0, num) == Ok::<AnyView, Fault>(inner),
            None => true,
        },
        attributes_read(v.attributes, num),
    ensures
        stepped(log_record_fields(v), LogRecordView::none(), log_record_step(num))
            == Ok::<LogRecordView, Fault>(v),
{
    let step = log_record_step(num);
    lemma_text(v.severity_text, 0);
    lemma_stored_id(v.trace_id);
    lemma_stored_id(v.span_id);
    let v0 = LogRecordView::none();
    let v1 = LogRecordView { time_unix_nano: v.time_unix_nano, ..v0 };
    let v2 = LogRecordView { severity_number: v.severity_number, ..v1 };
    let v3 = LogRecordView { severity_text: v.severity_text, ..v2 };
    let v4 = LogRecordView { body: v.body, ..v3 };
    let v5 = LogRecordView { attributes: v.attributes, ..v4 };
    let v6 = LogRecordView { trace_id: v.trace_id, ..v5 };
    let v7 = LogRecordView { span_id: v.span_id, ..v6 };
    let v8 = LogRecordView { observed_time_unix_nano: v.observed_time_unix_nano, ..v7 };
    let part1 = maybe_fixed(1, v.time_unix_nano);
    lemma_maybe_fixed(1, v.time_unix_nano, v0, step);
    assert(stepped(part1, v0, step) == Ok::<LogRecordView, Fault>(v1));
    let part2 = enum_field(2, v.severity_number);
    lemma_enum_field(2, v.severity_number, v1, step);
    assert(stepped(part2, v1, step) == Ok::<LogRecordView, Fault>(v2));
    lemma_stepped_concat(part1, part2, v0, step);
    let part3 = text_field(3, v.severity_text);
    lemma_text_field(3, v.severity_text, v2, step);
    assert(stepped(part3, v2, step) == Ok::<LogRecordView, Fault>(v3));
    lemma_stepped_concat(part1 + part2, part3, v0, step);
    let part4 = maybe_bytes(
        5,
        match v.body {
            Some(inner) => Some(any_bytes(inner)),
            None => None,
        },
    );
    lemma_maybe_bytes(
        5,
        match v.body {
            Some(inner) => Some(any_bytes(inner)),
            None => None,
        },
        v3,
        step,
    );
    assert(stepped(part4, v3, step) == Ok::<LogRecordView, Fault>(v4));
    lemma_stepped_concat(part1 + part2 + part3, part4, v0, step);
    let part5 = repeated(6, key_messages(v.attributes));
    let messages5 = key_messages(v.attributes);
    let put5 = |list: Seq<KeyView>| LogRecordView { attributes: list, ..v4 };
    lemma_appended(6, messages5, v.attributes, put5, step);
    assert(stepped(part5, v4, step) == Ok::<LogRecordView, Fault>(v5));
    lemma_stepped_concat(part1 + part2 + part3 + part4, part5, v0, step);
    let part6 = id_field(9, v.trace_id);
    lemma_id_field(9, v.trace_id, v5, step);
    assert(stepped(part6, v5, step) == Ok::<LogRecordView, Fault>(v6));
    lemma_stepped_concat(part1 + part2 + part3 + part4 + part5, part6, v0, step);
    let part7 = id_field(10, v.span_id);
    lemma_id_field(10, v.span_id, v6, step);
    assert(stepped(part7, v6, step) == Ok::<LogRecordView, Fault>(v7));
    lemma_stepped_concat(part1 + part2 + part3 + part4 + part5 + part6, part7, v0, step);
    let part8 = maybe_fixed(11, v.observed_time_unix_nano);
    lemma_maybe_fixed(11, v.observed_time_unix_nano, v7, step);
    assert(stepped(part8, v7, step) == Ok::<LogRecordView, Fault>(v8));
    lemma_stepped_concat(part1 + part2 + part3 + part4 + part5 + part6 + part7, part8, v0, step);
}

proof fn lemma_log_record(v: LogRecordView, num: Numerals)
    requires
        log_record_fits(v, num),
        log_record_bytes(v).len() <= usize::MAX,
    ensures
        log_record_message(log_record_bytes(v), num) == Ok::<LogRecordView, Fault>(v),
{
    lemma_log_record_len(v);
    if let Some(inner) = v.body {
        lemma_any(inner, 0, num);
    }
    lemma_attributes(6, v.attributes, num);
    lemma_log_record_steps(v, num);
    lemma_message_read(log_record_fields(v), LogRecordView::none(), log_record_step(num));
}

pub open spec fn scope_logs_fields(v: ScopeLogsView) -> Seq<Field> {
    maybe_bytes(
        1,
        match v.scope {
            Some(inner) => Some(scope_bytes(inner)),
            None => None,
        },
    ) + repeated(2, v.log_records.map_values(|inner: LogRecordView| log_record_bytes(inner)))
}

/// A `ScopeLogs` message.
pub open spec fn scope_logs_bytes(v: ScopeLogsView) -> Seq<u8> {
    message_bytes(scope_logs_fields(v))
}

/// What the wire can carry of it.
pub open spec fn scope_logs_fits(v: ScopeLogsView, num: Numerals) -> bool {
    &&& match v.scope {
        Some(inner) => scope_fits(inner, num),
        None => true,
    }
    &&& v.log_records.len() <= MAX_REPEATED
    &&& forall|i: int| 0 <= i < v.log_records.len()
        ==> log_record_fits(#[trigger] v.log_records[i], num)
}

#[verifier::spinoff_prover]
#[verifier::rlimit(50)]
proof fn lemma_scope_logs(v: ScopeLogsView, num: Numerals)
    requires
        scope_logs_fits(v, num),
        scope_logs_bytes(v).len() <= usize::MAX,
    ensures
        scope_logs_message(scope_logs_bytes(v), num) == Ok::<ScopeLogsView, Fault>(v),
{
    broadcast use group_fields;

    let step = scope_logs_step(num);
    let none = ScopeLogsView::none();
    if let Some(inner) = v.scope {
        lemma_scope(inner, num);
    }
    let mid = ScopeLogsView { scope: v.scope, ..none };
    let messages = v.log_records.map_values(|inner: LogRecordView| log_record_bytes(inner));
    let put = |list: Seq<LogRecordView>| ScopeLogsView { log_records: list, ..mid };
    assert forall|list: Seq<LogRecordView>, i: int|
        0 <= i < v.log_records.len() && list.len() == i implies #[trigger] step(
        put(list),
        2,
        Payload::Bytes(messages[i]),
        0,
    ) == Ok::<ScopeLogsView, Fault>(put(list.push(v.log_records[i]))) by {
        lemma_repeated_len(2, messages, i);
        lemma_log_record(v.log_records[i], num);
    }
    lemma_appended(2, messages, v.log_records, put, step);
    assert(stepped(scope_logs_fields(v), none, step) == Ok::<ScopeLogsView, Fault>(v));
    lemma_message_read(scope_logs_fields(v), none, step);
}

pub open spec fn resource_logs_fields(v: ResourceLogsView) -> Seq<Field> {
    maybe_bytes(
        1,
        match v.resource {
            Some(inner) => Some(resource_bytes(inner)),
            None => None,
        },
    ) + repeated(2, v.scope_logs.map_values(|inner: ScopeLogsView| scope_logs_bytes(inner)))
}

/// A `ResourceLogs` message.
pub open spec fn resource_logs_bytes(v: ResourceLogsView) -> Seq<u8> {
    message_bytes(resource_logs_fields(v))
}

/// What the wire can carry of it.
pub open spec fn resource_logs_fits(v: ResourceLogsView, num: Numerals) -> bool {
    &&& match v.resource {
        Some(inner) => resource_fits(inner, num),
        None => true,
    }
    &&& v.scope_logs.len() <= MAX_REPEATED
    &&& forall|i: int| 0 <= i < v.scope_logs.len()
        ==> scope_logs_fits(#[trigger] v.scope_logs[i], num)
}

#[verifier::spinoff_prover]
#[verifier::rlimit(50)]
proof fn lemma_resource_logs(v: ResourceLogsView, num: Numerals)
    requires
        resource_logs_fits(v, num),
        resource_logs_bytes(v).len() <= usize::MAX,
    ensures
        resource_logs_message(resource_logs_bytes(v), num) == Ok::<ResourceLogsView, Fault>(v),
{
    broadcast use group_fields;

    let step = resource_logs_step(num);
    let none = ResourceLogsView::none();
    if let Some(inner) = v.resource {
        lemma_resource(inner, num);
    }
    let mid = ResourceLogsView { resource: v.resource, ..none };
    let messages = v.scope_logs.map_values(|inner: ScopeLogsView| scope_logs_bytes(inner));
    let put = |list: Seq<ScopeLogsView>| ResourceLogsView { scope_logs: list, ..mid };
    assert forall|list: Seq<ScopeLogsView>, i: int|
        0 <= i < v.scope_logs.len() && list.len() == i implies #[trigger] step(
        put(list),
        2,
        Payload::Bytes(messages[i]),
        0,
    ) == Ok::<ResourceLogsView, Fault>(put(list.push(v.scope_logs[i]))) by {
        lemma_repeated_len(2, messages, i);
        lemma_scope_logs(v.scope_logs[i], num);
    }
    lemma_appended(2, messages, v.scope_logs, put, step);
    assert(stepped(resource_logs_fields(v), none, step) == Ok::<ResourceLogsView, Fault>(v));
    lemma_message_read(resource_logs_fields(v), none, step);
}

pub open spec fn logs_fields(v: Seq<ResourceLogsView>) -> Seq<Field> {
    repeated(1, v.map_values(|inner: ResourceLogsView| resource_logs_bytes(inner)))
}

/// A request to export logs.
pub open spec fn logs_bytes(v: Seq<ResourceLogsView>) -> Seq<u8> {
    message_bytes(logs_fields(v))
}

/// What the wire can carry of it.
pub open spec fn logs_fits(v: Seq<ResourceLogsView>, num: Numerals) -> bool {
    &&& v.len() <= MAX_REPEATED
    &&& forall|i: int| 0 <= i < v.len() ==> resource_logs_fits(#[trigger] v[i], num)
}

#[verifier::spinoff_prover]
#[verifier::rlimit(50)]
proof fn lemma_logs(v: Seq<ResourceLogsView>, num: Numerals)
    requires
        logs_fits(v, num),
        logs_bytes(v).len() <= usize::MAX,
    ensures
        logs_message(logs_bytes(v), num) == Ok::<Seq<ResourceLogsView>, Fault>(v),
{
    broadcast use group_fields;

    let step = logs_step(num);
    let none = Seq::<ResourceLogsView>::empty();
    let messages = v.map_values(|inner: ResourceLogsView| resource_logs_bytes(inner));
    let put = |list: Seq<ResourceLogsView>| list;
    assert forall|list: Seq<ResourceLogsView>, i: int|
        0 <= i < v.len() && list.len() == i implies #[trigger] step(
        put(list),
        1,
        Payload::Bytes(messages[i]),
        0,
    ) == Ok::<Seq<ResourceLogsView>, Fault>(put(list.push(v[i]))) by {
        lemma_repeated_len(1, messages, i);
        lemma_resource_logs(v[i], num);
    }
    lemma_appended(1, messages, v, put, step);
    assert(stepped(logs_fields(v), none, step) == Ok::<Seq<ResourceLogsView>, Fault>(v));
    lemma_message_read(logs_fields(v), none, step);
}

/// Law: log records that were written in protobuf are read back, every field of them.
pub proof fn law_written_logs_are_read(v: Seq<ResourceLogsView>, num: Numerals)
    requires
        logs_fits(v, num),
        logs_bytes(v).len() <= usize::MAX,
    ensures
        logs_message(logs_bytes(v), num) == Ok::<Seq<ResourceLogsView>, Fault>(v),
{
    lemma_logs(v, num);
}

// ---------------------------------------------------------------------------
// trace.proto
// ---------------------------------------------------------------------------

pub open spec fn span_event_fields(v: EventJsonView) -> Seq<Field> {
    maybe_fixed(1, v.time_unix_nano) + text_field(2, v.name)
        + repeated(3, key_messages(v.attributes))
}

/// An `Event` message of a span.
pub open spec fn span_event_bytes(v: EventJsonView) -> Seq<u8> {
    message_bytes(span_event_fields(v))
}

/// What the wire can carry of it.
pub open spec fn span_event_fits(v: EventJsonView, num: Numerals) -> bool {
    &&& attributes_fit(v.attributes, num)
}

#[verifier::spinoff_prover]
#[verifier::rlimit(50)]
proof fn lemma_span_event(v: EventJsonView, num: Numerals)
    requires
        span_event_fits(v, num),
        span_event_bytes(v).len() <= usize::MAX,
    ensures
        span_event_message(span_event_bytes(v), num) == Ok::<EventJsonView, Fault>(v),
{
    broadcast use group_fields;

    let step = span_event_step(num);
    let none = EventJsonView::none();
    lemma_text(v.name, 0);
    let mid = EventJsonView { time_unix_nano: v.time_unix_nano, name: v.name, ..none };
    let messages = key_messages(v.attributes);
    let put = |list: Seq<KeyView>| EventJsonView { attributes: list, ..mid };
    lemma_attributes(3, v.attributes, num);
    assert forall|list: Seq<KeyView>, i: int|
        0 <= i < v.attributes.len() && list.len() == i implies #[trigger] step(
        put(list),
        3,
        Payload::Bytes(messages[i]),
        0,
    ) == Ok::<EventJsonView, Fault>(put(list.push(v.attributes[i]))) by {
    }
    lemma_appended(3, messages, v.attributes, put, step);
    assert(stepped(span_event_fields(v), none, step) == Ok::<EventJsonView, Fault>(v));
    lemma_message_read(span_event_fields(v), none, step);
}

pub open spec fn status_fields(v: StatusView) -> Seq<Field> {
    text_field(2, v.message) + enum_field(3, v.code)
}

/// A `Status` message.
pub open spec fn status_bytes(v: StatusView) -> Seq<u8> {
    message_bytes(status_fields(v))
}

/// What the wire can carry of it.
pub open spec fn status_fits(v: StatusView, num: Numerals) -> bool {
    &&& enum_fits(v.code)
}

proof fn lemma_status(v: StatusView, num: Numerals)
    requires
        status_fits(v, num),
        status_bytes(v).len() <= usize::MAX,
    ensures
        status_message(status_bytes(v), num) == Ok::<StatusView, Fault>(v),
{
    broadcast use group_fields;

    let step = status_step(num);
    let none = StatusView::none();
    lemma_text(v.message, 0);
    assert(stepped(status_fields(v), none, step) == Ok::<StatusView, Fault>(v));
    lemma_message_read(status_fields(v), none, step);
}

pub open spec fn span_fields(v: SpanJsonView) -> Seq<Field> {
    id_field(1, v.trace_id) + id_field(2, v.span_id) + id_field(4, v.parent_span_id)
        + text_field(5, v.name) + enum_field(6, v.kind) + maybe_fixed(7, v.start_time_unix_nano)
        + maybe_fixed(8, v.end_time_unix_nano) + repeated(9, key_messages(v.attributes))
        + repeated(11, v.events.map_values(|inner: EventJsonView| span_event_bytes(inner)))
        + maybe_bytes(
        15,
        match v.status {
            Some(inner) => Some(status_bytes(inner)),
            None => None,
        },
    )
}

/// A `Span` message.
pub open spec fn span_bytes(v: SpanJsonView) -> Seq<u8> {
    message_bytes(span_fields(v))
}

/// What the wire can carry of it.
pub open spec fn span_fits(v: SpanJsonView, num: Numerals) -> bool {
    &&& is_stored_id(v.trace_id)
    &&& is_stored_id(v.span_id)
    &&& is_stored_id(v.parent_span_id)
    &&& enum_fits(v.kind)
    &&& attributes_fit(v.attributes, num)
    &&& v.events.len() <= MAX_REPEATED
    &&& forall|i: int| 0 <= i < v.events.len() ==> span_event_fits(#[trigger] v.events[i], num)
    &&& match v.status {
        Some(inner) => status_fits(inner, num),
        None => true,
    }
}

/// What it holds is no longer than it.
proof fn lemma_span_len(v: SpanJsonView)
    ensures
        message_bytes(repeated(9, key_messages(v.attributes))).len() <= span_bytes(v).len(),
        message_bytes(repeated(11, v.events.map_values(|inner: EventJsonView| span_event_bytes(inner)))).len()
            <= span_bytes(v).len(),
        match v.status {
            Some(inner) => status_bytes(inner).len() <= span_bytes(v).len(),
            None => true,
        },
{
    broadcast use {lemma_message_concat, lemma_maybe_bytes_len};

}

/// Its fields give it back, once what it holds is read back.
#[verifier::spinoff_prover]
#[verifier::rlimit(50)]
proof fn lemma_span_steps(v: SpanJsonView, num: Numerals)
    requires
        span_fits(v, num),
        attributes_read(v.attributes, num),
        forall|i: int|
            0 <= i < v.events.len()
                ==> span_event_message(span_event_bytes(#[trigger] v.events[i]), num)
                == Ok::<EventJsonView, Fault>(v.events[i]),
        match v.status {
            Some(inner) => status_message(status_bytes(inner), num)
                == Ok::<StatusView, Fault>(inner),
            None => true,
        },
    ensures
        stepped(span_fields(v), SpanJsonView::none(), span_step(num))
            == Ok::<SpanJsonView, Fault>(v),
{
    let step = span_step(num);
    lemma_stored_id(v.trace_id);
    lemma_stored_id(v.span_id);
    lemma_stored_id(v.parent_span_id);
    lemma_text(v.name, 0);
    let v0 = SpanJsonView::none();
    let v1 = SpanJsonView { trace_id: v.trace_id, ..v0 };
    let v2 = SpanJsonView { span_id: v.span_id, ..v1 };
    let v3 = SpanJsonView { parent_span_id: v.parent_span_id, ..v2 };
    let v4 = SpanJsonView { name: v.name, ..v3 };
    let v5 = SpanJsonView { kind: v.kind, ..v4 };
    let v6 = SpanJsonView { start_time_unix_nano: v.start_time_unix_nano, ..v5 };
    let v7 = SpanJsonView { end_time_unix_nano: v.end_time_unix_nano, ..v6 };
    let v8 = SpanJsonView { attributes: v.attributes, ..v7 };
    let v9 = SpanJsonView { events: v.events, ..v8 };
    let v10 = SpanJsonView { status: v.status, ..v9 };
    let part1 = id_field(1, v.trace_id);
    lemma_id_field(1, v.trace_id, v0, step);
    assert(stepped(part1, v0, step) == Ok::<SpanJsonView, Fault>(v1));
    let part2 = id_field(2, v.span_id);
    lemma_id_field(2, v.span_id, v1, step);
    assert(stepped(part2, v1, step) == Ok::<SpanJsonView, Fault>(v2));
    lemma_stepped_concat(part1, part2, v0, step);
    let part3 = id_field(4, v.parent_span_id);
    lemma_id_field(4, v.parent_span_id, v2, step);
    assert(stepped(part3, v2, step) == Ok::<SpanJsonView, Fault>(v3));
    lemma_stepped_concat(part1 + part2, part3, v0, step);
    let part4 = text_field(5, v.name);
    lemma_text_field(5, v.name, v3, step);
    assert(stepped(part4, v3, step) == Ok::<SpanJsonView, Fault>(v4));
    lemma_stepped_concat(part1 + part2 + part3, part4, v0, step);
    let part5 = enum_field(6, v.kind);
    lemma_enum_field(6, v.kind, v4, step);
    assert(stepped(part5, v4, step) == Ok::<SpanJsonView, Fault>(v5));
    lemma_stepped_concat(part1 + part2 + part3 + part4, part5, v0, step);
    let part6 = maybe_fixed(7, v.start_time_unix_nano);
    lemma_maybe_fixed(7, v.start_time_unix_nano, v5, step);
    assert(stepped(part6, v5, step) == Ok::<SpanJsonView, Fault>(v6));
    lemma_stepped_concat(part1 + part2 + part3 + part4 + part5, part6, v0, step);
    let part7 = maybe_fixed(8, v.end_time_unix_nano);
    lemma_maybe_fixed(8, v.end_time_unix_nano, v6, step);
    assert(stepped(part7, v6, step) == Ok::<SpanJsonView, Fault>(v7));
    lemma_stepped_concat(part1 + part2 + part3 + part4 + part5 + part6, part7, v0, step);
    let part8 = repeated(9, key_messages(v.attributes));
    let messages8 = key_messages(v.attributes);
    let put8 = |list: Seq<KeyView>| SpanJsonView { attributes: list, ..v7 };
    lemma_appended(9, messages8, v.attributes, put8, step);
    assert(stepped(part8, v7, step) == Ok::<SpanJsonView, Fault>(v8));
    lemma_stepped_concat(part1 + part2 + part3 + part4 + part5 + part6 + part7, part8, v0, step);
    let part9 = repeated(11, v.events.map_values(|inner: EventJsonView| span_event_bytes(inner)));
    let messages9 = v.events.map_values(|inner: EventJsonView| span_event_bytes(inner));
    let put9 = |list: Seq<EventJsonView>| SpanJsonView { events: list, ..v8 };
    lemma_appended(11, messages9, v.events, put9, step);
    assert(stepped(part9, v8, step) == Ok::<SpanJsonView, Fault>(v9));
    lemma_stepped_concat(part1 + part2 + part3 + part4 + part5 + part6 + part7
        + part8, part9, v0, step);
    let part10 = maybe_bytes(
        15,
        match v.status {
            Some(inner) => Some(status_bytes(inner)),
            None => None,
        },
    );
    lemma_maybe_bytes(
        15,
        match v.status {
            Some(inner) => Some(status_bytes(inner)),
            None => None,
        },
        v9,
        step,
    );
    assert(stepped(part10, v9, step) == Ok::<SpanJsonView, Fault>(v10));
    lemma_stepped_concat(part1 + part2 + part3 + part4 + part5 + part6 + part7 + part8
        + part9, part10, v0, step);
}

proof fn lemma_span(v: SpanJsonView, num: Numerals)
    requires
        span_fits(v, num),
        span_bytes(v).len() <= usize::MAX,
    ensures
        span_message(span_bytes(v), num) == Ok::<SpanJsonView, Fault>(v),
{
    lemma_span_len(v);
    lemma_attributes(9, v.attributes, num);
    assert forall|i: int|
        0 <= i < v.events.len() implies span_event_message(span_event_bytes(#[trigger] v.events[i]), num)
            == Ok::<EventJsonView, Fault>(v.events[i]) by {
        let messages = v.events.map_values(|inner: EventJsonView| span_event_bytes(inner));
        lemma_repeated_len(11, messages, i);
        assert(messages[i] == span_event_bytes(v.events[i]));
        lemma_span_event(v.events[i], num);
    }
    if let Some(inner) = v.status {
        lemma_status(inner, num);
    }
    lemma_span_steps(v, num);
    lemma_message_read(span_fields(v), SpanJsonView::none(), span_step(num));
}

pub open spec fn scope_spans_fields(v: ScopeSpansView) -> Seq<Field> {
    maybe_bytes(
        1,
        match v.scope {
            Some(inner) => Some(scope_bytes(inner)),
            None => None,
        },
    ) + repeated(2, v.spans.map_values(|inner: SpanJsonView| span_bytes(inner)))
}

/// A `ScopeSpans` message.
pub open spec fn scope_spans_bytes(v: ScopeSpansView) -> Seq<u8> {
    message_bytes(scope_spans_fields(v))
}

/// What the wire can carry of it.
pub open spec fn scope_spans_fits(v: ScopeSpansView, num: Numerals) -> bool {
    &&& match v.scope {
        Some(inner) => scope_fits(inner, num),
        None => true,
    }
    &&& v.spans.len() <= MAX_REPEATED
    &&& forall|i: int| 0 <= i < v.spans.len() ==> span_fits(#[trigger] v.spans[i], num)
}

#[verifier::spinoff_prover]
#[verifier::rlimit(50)]
proof fn lemma_scope_spans(v: ScopeSpansView, num: Numerals)
    requires
        scope_spans_fits(v, num),
        scope_spans_bytes(v).len() <= usize::MAX,
    ensures
        scope_spans_message(scope_spans_bytes(v), num) == Ok::<ScopeSpansView, Fault>(v),
{
    broadcast use group_fields;

    let step = scope_spans_step(num);
    let none = ScopeSpansView::none();
    if let Some(inner) = v.scope {
        lemma_scope(inner, num);
    }
    let mid = ScopeSpansView { scope: v.scope, ..none };
    let messages = v.spans.map_values(|inner: SpanJsonView| span_bytes(inner));
    let put = |list: Seq<SpanJsonView>| ScopeSpansView { spans: list, ..mid };
    assert forall|list: Seq<SpanJsonView>, i: int|
        0 <= i < v.spans.len() && list.len() == i implies #[trigger] step(
        put(list),
        2,
        Payload::Bytes(messages[i]),
        0,
    ) == Ok::<ScopeSpansView, Fault>(put(list.push(v.spans[i]))) by {
        lemma_repeated_len(2, messages, i);
        lemma_span(v.spans[i], num);
    }
    lemma_appended(2, messages, v.spans, put, step);
    assert(stepped(scope_spans_fields(v), none, step) == Ok::<ScopeSpansView, Fault>(v));
    lemma_message_read(scope_spans_fields(v), none, step);
}

pub open spec fn resource_spans_fields(v: ResourceSpansView) -> Seq<Field> {
    maybe_bytes(
        1,
        match v.resource {
            Some(inner) => Some(resource_bytes(inner)),
            None => None,
        },
    ) + repeated(2, v.scope_spans.map_values(|inner: ScopeSpansView| scope_spans_bytes(inner)))
}

/// A `ResourceSpans` message.
pub open spec fn resource_spans_bytes(v: ResourceSpansView) -> Seq<u8> {
    message_bytes(resource_spans_fields(v))
}

/// What the wire can carry of it.
pub open spec fn resource_spans_fits(v: ResourceSpansView, num: Numerals) -> bool {
    &&& match v.resource {
        Some(inner) => resource_fits(inner, num),
        None => true,
    }
    &&& v.scope_spans.len() <= MAX_REPEATED
    &&& forall|i: int| 0 <= i < v.scope_spans.len()
        ==> scope_spans_fits(#[trigger] v.scope_spans[i], num)
}

#[verifier::spinoff_prover]
#[verifier::rlimit(50)]
proof fn lemma_resource_spans(v: ResourceSpansView, num: Numerals)
    requires
        resource_spans_fits(v, num),
        resource_spans_bytes(v).len() <= usize::MAX,
    ensures
        resource_spans_message(resource_spans_bytes(v), num) == Ok::<ResourceSpansView, Fault>(v),
{
    broadcast use group_fields;

    let step = resource_spans_step(num);
    let none = ResourceSpansView::none();
    if let Some(inner) = v.resource {
        lemma_resource(inner, num);
    }
    let mid = ResourceSpansView { resource: v.resource, ..none };
    let messages = v.scope_spans.map_values(|inner: ScopeSpansView| scope_spans_bytes(inner));
    let put = |list: Seq<ScopeSpansView>| ResourceSpansView { scope_spans: list, ..mid };
    assert forall|list: Seq<ScopeSpansView>, i: int|
        0 <= i < v.scope_spans.len() && list.len() == i implies #[trigger] step(
        put(list),
        2,
        Payload::Bytes(messages[i]),
        0,
    ) == Ok::<ResourceSpansView, Fault>(put(list.push(v.scope_spans[i]))) by {
        lemma_repeated_len(2, messages, i);
        lemma_scope_spans(v.scope_spans[i], num);
    }
    lemma_appended(2, messages, v.scope_spans, put, step);
    assert(stepped(resource_spans_fields(v), none, step) == Ok::<ResourceSpansView, Fault>(v));
    lemma_message_read(resource_spans_fields(v), none, step);
}

pub open spec fn traces_fields(v: Seq<ResourceSpansView>) -> Seq<Field> {
    repeated(1, v.map_values(|inner: ResourceSpansView| resource_spans_bytes(inner)))
}

/// A request to export traces.
pub open spec fn traces_bytes(v: Seq<ResourceSpansView>) -> Seq<u8> {
    message_bytes(traces_fields(v))
}

/// What the wire can carry of it.
pub open spec fn traces_fits(v: Seq<ResourceSpansView>, num: Numerals) -> bool {
    &&& v.len() <= MAX_REPEATED
    &&& forall|i: int| 0 <= i < v.len() ==> resource_spans_fits(#[trigger] v[i], num)
}

#[verifier::spinoff_prover]
#[verifier::rlimit(50)]
proof fn lemma_traces(v: Seq<ResourceSpansView>, num: Numerals)
    requires
        traces_fits(v, num),
        traces_bytes(v).len() <= usize::MAX,
    ensures
        traces_message(traces_bytes(v), num) == Ok::<Seq<ResourceSpansView>, Fault>(v),
{
    broadcast use group_fields;

    let step = traces_step(num);
    let none = Seq::<ResourceSpansView>::empty();
    let messages = v.map_values(|inner: ResourceSpansView| resource_spans_bytes(inner));
    let put = |list: Seq<ResourceSpansView>| list;
    assert forall|list: Seq<ResourceSpansView>, i: int|
        0 <= i < v.len() && list.len() == i implies #[trigger] step(
        put(list),
        1,
        Payload::Bytes(messages[i]),
        0,
    ) == Ok::<Seq<ResourceSpansView>, Fault>(put(list.push(v[i]))) by {
        lemma_repeated_len(1, messages, i);
        lemma_resource_spans(v[i], num);
    }
    lemma_appended(1, messages, v, put, step);
    assert(stepped(traces_fields(v), none, step) == Ok::<Seq<ResourceSpansView>, Fault>(v));
    lemma_message_read(traces_fields(v), none, step);
}

/// Law: spans that were written in protobuf are read back, every field of them.
pub proof fn law_written_traces_are_read(v: Seq<ResourceSpansView>, num: Numerals)
    requires
        traces_fits(v, num),
        traces_bytes(v).len() <= usize::MAX,
    ensures
        traces_message(traces_bytes(v), num) == Ok::<Seq<ResourceSpansView>, Fault>(v),
{
    lemma_traces(v, num);
}

// ---------------------------------------------------------------------------
// metrics.proto
// ---------------------------------------------------------------------------

/// Eight-byte numbers one behind the other.
pub open spec fn packed_bytes(values: Seq<u64>) -> Seq<u8>
    decreases values.len(),
{
    if values.len() == 0 {
        Seq::empty()
    } else {
        le_bytes(values[0] as nat, 8) + packed_bytes(values.drop_first())
    }
}

/// Numbers in one field, which is left out where there are none.
pub open spec fn packed_field(number: u32, values: Seq<u64>) -> Seq<Field> {
    if values.len() == 0 {
        Seq::empty()
    } else {
        seq![(number, Payload::Bytes(packed_bytes(values)))]
    }
}

proof fn lemma_packed_field<T>(number: u32, values: Seq<u64>, out: T, step: Step<T>)
    ensures
        stepped(packed_field(number, values), out, step) == (if values.len() == 0 {
            Ok(out)
        } else {
            step(out, number, Payload::Bytes(packed_bytes(values)), 0)
        }),
{
    if values.len() > 0 {
        lemma_one((number, Payload::Bytes(packed_bytes(values))), out, step);
    }
}

/// Packed numbers are read back.
proof fn lemma_packed(before: Seq<u8>, values: Seq<u64>, out: Seq<u64>, field: Seq<char>)
    requires
        out.len() + values.len() <= MAX_REPEATED,
    ensures
        packed_from(before + packed_bytes(values), before.len() as int, out, 0, field) == Ok::<
            Seq<u64>,
            Fault,
        >(out + values),
    decreases values.len(),
{
    let all = before + packed_bytes(values);
    if values.len() == 0 {
        assert(out + values =~= out);
    } else {
        let first = le_bytes(values[0] as nat, 8);
        let rest = values.drop_first();
        let at = before.len() as int;
        reveal_with_fuel(le_limit, 9);
        lemma_le_round_trip(values[0] as nat, 8);
        assert(all =~= before + first + packed_bytes(rest));
        assert(all.subrange(at, at + 8) =~= first);
        lemma_packed(before + first, rest, out.push(values[0]), field);
        assert(out.push(values[0]) + rest =~= out + values);
    }
}

proof fn lemma_packed_whole(values: Seq<u64>, field: Seq<char>)
    requires
        values.len() <= MAX_REPEATED,
    ensures
        packed_from(packed_bytes(values), 0, Seq::empty(), 0, field) == Ok::<Seq<u64>, Fault>(
            values,
        ),
{
    lemma_packed(Seq::empty(), values, Seq::empty(), field);
    assert(Seq::<u8>::empty() + packed_bytes(values) =~= packed_bytes(values));
    assert(Seq::<u64>::empty() + values =~= values);
}

/// Counts that are all there, as numbers.
pub open spec fn counts_of(counts: Seq<Option<u64>>) -> Seq<u64> {
    counts.map_values(|count: Option<u64>| count->Some_0)
}

/// Numbers that are written as these bounds.
pub open spec fn unwritten(texts: Seq<Seq<char>>, bound: Bounds) -> Seq<u64> {
    texts.map_values(|text: Seq<char>| choose|bits: u64| #[trigger] bound(bits) == text)
}

/// No list too long, each text of which is how some number is written.
pub open spec fn are_written(texts: Seq<Seq<char>>, bound: Bounds) -> bool {
    texts.len() <= MAX_REPEATED && forall|i: int|
        0 <= i < texts.len() ==> exists|bits: u64| #[trigger] bound(bits) == #[trigger] texts[i]
}

/// No list too long, each count of which is there.
pub open spec fn counts_fit(counts: Seq<Option<u64>>) -> bool {
    counts.len() <= MAX_REPEATED && forall|i: int|
        0 <= i < counts.len() ==> (#[trigger] counts[i]) is Some
}

proof fn lemma_counts(counts: Seq<Option<u64>>)
    requires
        counts_fit(counts),
    ensures
        Seq::<Option<u64>>::empty() + given(counts_of(counts)) == counts,
        counts.len() == 0 ==> counts == Seq::<Option<u64>>::empty(),
        packed_from(packed_bytes(counts_of(counts)), 0, Seq::empty(), 0, "bucket_counts"@) == Ok::<
            Seq<u64>,
            Fault,
        >(counts_of(counts)),
{
    lemma_packed_whole(counts_of(counts), "bucket_counts"@);
    assert(Seq::<Option<u64>>::empty() + given(counts_of(counts)) =~= counts);
}

proof fn lemma_bounds(texts: Seq<Seq<char>>, bound: Bounds)
    requires
        are_written(texts, bound),
    ensures
        Seq::<Seq<char>>::empty() + written(unwritten(texts, bound), bound) == texts,
        texts.len() == 0 ==> texts == Seq::<Seq<char>>::empty(),
        packed_from(
            packed_bytes(unwritten(texts, bound)),
            0,
            Seq::empty(),
            0,
            "explicit_bounds"@,
        ) == Ok::<Seq<u64>, Fault>(unwritten(texts, bound)),
{
    lemma_packed_whole(unwritten(texts, bound), "explicit_bounds"@);
    assert(Seq::<Seq<char>>::empty() + written(unwritten(texts, bound), bound) =~= texts);
}

pub open spec fn number_point_fields(v: PointView) -> Seq<Field> {
    maybe_fixed(3, v.time_unix_nano) + maybe_fixed(4, v.as_double) + maybe_fixed(
        6,
        match v.as_int {
            Some(n) => Some(raw_of(n)),
            None => None,
        },
    ) + repeated(7, key_messages(v.attributes))
}

/// A `NumberDataPoint` message.
pub open spec fn number_point_bytes(v: PointView) -> Seq<u8> {
    message_bytes(number_point_fields(v))
}

/// What the wire can carry of it.
pub open spec fn number_point_fits(v: PointView, num: Numerals) -> bool {
    &&& attributes_fit(v.attributes, num)
}

proof fn lemma_number_point(v: PointView, num: Numerals)
    requires
        number_point_fits(v, num),
        number_point_bytes(v).len() <= usize::MAX,
    ensures
        number_point_message(number_point_bytes(v), num) == Ok::<PointView, Fault>(v),
{
    broadcast use group_fields;

    let step = number_point_step(num);
    let none = PointView::none();
    let mid = PointView {
        time_unix_nano: v.time_unix_nano,
        as_double: v.as_double,
        as_int: v.as_int,
        ..none
    };
    let messages = key_messages(v.attributes);
    let put = |list: Seq<KeyView>| PointView { attributes: list, ..mid };
    lemma_attributes(7, v.attributes, num);
    assert forall|list: Seq<KeyView>, i: int|
        0 <= i < v.attributes.len() && list.len() == i implies #[trigger] step(
        put(list),
        7,
        Payload::Bytes(messages[i]),
        0,
    ) == Ok::<PointView, Fault>(put(list.push(v.attributes[i]))) by {
    }
    lemma_appended(7, messages, v.attributes, put, step);
    assert(stepped(number_point_fields(v), none, step) == Ok::<PointView, Fault>(v));
    lemma_message_read(number_point_fields(v), none, step);
}

pub open spec fn number_points_fields(v: Seq<PointView>) -> Seq<Field> {
    repeated(1, v.map_values(|inner: PointView| number_point_bytes(inner)))
}

/// A `Gauge` message.
pub open spec fn number_points_bytes(v: Seq<PointView>) -> Seq<u8> {
    message_bytes(number_points_fields(v))
}

/// What the wire can carry of it.
pub open spec fn number_points_fits(v: Seq<PointView>, num: Numerals) -> bool {
    &&& v.len() <= MAX_REPEATED
    &&& forall|i: int| 0 <= i < v.len() ==> number_point_fits(#[trigger] v[i], num)
}

proof fn lemma_number_points(v: Seq<PointView>, num: Numerals)
    requires
        number_points_fits(v, num),
        number_points_bytes(v).len() <= usize::MAX,
    ensures
        number_points_message(number_points_bytes(v), num) == Ok::<Seq<PointView>, Fault>(v),
{
    broadcast use group_fields;

    let step = number_points_step(num);
    let none = Seq::<PointView>::empty();
    let messages = v.map_values(|inner: PointView| number_point_bytes(inner));
    let put = |list: Seq<PointView>| list;
    assert forall|list: Seq<PointView>, i: int|
        0 <= i < v.len() && list.len() == i implies #[trigger] step(
        put(list),
        1,
        Payload::Bytes(messages[i]),
        0,
    ) == Ok::<Seq<PointView>, Fault>(put(list.push(v[i]))) by {
        lemma_repeated_len(1, messages, i);
        lemma_number_point(v[i], num);
    }
    lemma_appended(1, messages, v, put, step);
    assert(stepped(number_points_fields(v), none, step) == Ok::<Seq<PointView>, Fault>(v));
    lemma_message_read(number_points_fields(v), none, step);
}

pub open spec fn sum_fields(v: SumView) -> Seq<Field> {
    repeated(1, v.data_points.map_values(|inner: PointView| number_point_bytes(inner)))
        + enum_field(2, v.temporality) + maybe_varint(
        3,
        if v.is_monotonic {
            Some(1)
        } else {
            None
        },
    )
}

/// A `Sum` message.
pub open spec fn sum_bytes(v: SumView) -> Seq<u8> {
    message_bytes(sum_fields(v))
}

/// What the wire can carry of it.
pub open spec fn sum_fits(v: SumView, num: Numerals) -> bool {
    &&& v.data_points.len() <= MAX_REPEATED
    &&& forall|i: int| 0 <= i < v.data_points.len()
        ==> number_point_fits(#[trigger] v.data_points[i], num)
    &&& enum_fits(v.temporality)
}

proof fn lemma_sum(v: SumView, num: Numerals)
    requires
        sum_fits(v, num),
        sum_bytes(v).len() <= usize::MAX,
    ensures
        sum_message(sum_bytes(v), num) == Ok::<SumView, Fault>(v),
{
    broadcast use group_fields;

    let step = sum_step(num);
    let none = SumView::none();
    let mid = SumView { ..none };
    let messages = v.data_points.map_values(|inner: PointView| number_point_bytes(inner));
    let put = |list: Seq<PointView>| SumView { data_points: list, ..mid };
    assert forall|list: Seq<PointView>, i: int|
        0 <= i < v.data_points.len() && list.len() == i implies #[trigger] step(
        put(list),
        1,
        Payload::Bytes(messages[i]),
        0,
    ) == Ok::<SumView, Fault>(put(list.push(v.data_points[i]))) by {
        lemma_repeated_len(1, messages, i);
        lemma_number_point(v.data_points[i], num);
    }
    lemma_appended(1, messages, v.data_points, put, step);
    assert(stepped(sum_fields(v), none, step) == Ok::<SumView, Fault>(v));
    lemma_message_read(sum_fields(v), none, step);
}

pub open spec fn histogram_point_fields(v: HistogramView, bound: Bounds) -> Seq<Field> {
    maybe_fixed(3, v.time_unix_nano) + maybe_fixed(4, v.count) + maybe_fixed(5, v.sum)
        + packed_field(6, counts_of(v.bucket_counts))
        + packed_field(7, unwritten(v.explicit_bounds, bound))
        + repeated(9, key_messages(v.attributes))
}

/// A `HistogramDataPoint` message.
pub open spec fn histogram_point_bytes(v: HistogramView, bound: Bounds) -> Seq<u8> {
    message_bytes(histogram_point_fields(v, bound))
}

/// What the wire can carry of it.
pub open spec fn histogram_point_fits(v: HistogramView, num: Numerals, bound: Bounds) -> bool {
    &&& counts_fit(v.bucket_counts)
    &&& are_written(v.explicit_bounds, bound)
    &&& attributes_fit(v.attributes, num)
}

/// What it holds is no longer than it.
proof fn lemma_histogram_point_len(v: HistogramView, bound: Bounds)
    ensures
        message_bytes(repeated(9, key_messages(v.attributes))).len()
            <= histogram_point_bytes(v, bound).len(),
{
    broadcast use {lemma_message_concat, lemma_maybe_bytes_len};

}

/// Its fields give it back, once what it holds is read back.
proof fn lemma_histogram_point_steps(v: HistogramView, num: Numerals, bound: Bounds)
    requires
        histogram_point_fits(v, num, bound),
        attributes_read(v.attributes, num),
    ensures
        stepped(
            histogram_point_fields(v, bound),
            HistogramView::none(),
            histogram_point_step(num, bound),
        )
            == Ok::<HistogramView, Fault>(v),
{
    let step = histogram_point_step(num, bound);
    lemma_counts(v.bucket_counts);
    lemma_bounds(v.explicit_bounds, bound);
    let v0 = HistogramView::none();
    let v1 = HistogramView { time_unix_nano: v.time_unix_nano, ..v0 };
    let v2 = HistogramView { count: v.count, ..v1 };
    let v3 = HistogramView { sum: v.sum, ..v2 };
    let v4 = HistogramView { bucket_counts: v.bucket_counts, ..v3 };
    let v5 = HistogramView { explicit_bounds: v.explicit_bounds, ..v4 };
    let v6 = HistogramView { attributes: v.attributes, ..v5 };
    let part1 = maybe_fixed(3, v.time_unix_nano);
    lemma_maybe_fixed(3, v.time_unix_nano, v0, step);
    assert(stepped(part1, v0, step) == Ok::<HistogramView, Fault>(v1));
    let part2 = maybe_fixed(4, v.count);
    lemma_maybe_fixed(4, v.count, v1, step);
    assert(stepped(part2, v1, step) == Ok::<HistogramView, Fault>(v2));
    lemma_stepped_concat(part1, part2, v0, step);
    let part3 = maybe_fixed(5, v.sum);
    lemma_maybe_fixed(5, v.sum, v2, step);
    assert(stepped(part3, v2, step) == Ok::<HistogramView, Fault>(v3));
    lemma_stepped_concat(part1 + part2, part3, v0, step);
    let part4 = packed_field(6, counts_of(v.bucket_counts));
    lemma_packed_field(6, counts_of(v.bucket_counts), v3, step);
    assert(stepped(part4, v3, step) == Ok::<HistogramView, Fault>(v4));
    lemma_stepped_concat(part1 + part2 + part3, part4, v0, step);
    let part5 = packed_field(7, unwritten(v.explicit_bounds, bound));
    lemma_packed_field(7, unwritten(v.explicit_bounds, bound), v4, step);
    assert(stepped(part5, v4, step) == Ok::<HistogramView, Fault>(v5));
    lemma_stepped_concat(part1 + part2 + part3 + part4, part5, v0, step);
    let part6 = repeated(9, key_messages(v.attributes));
    let messages6 = key_messages(v.attributes);
    let put6 = |list: Seq<KeyView>| HistogramView { attributes: list, ..v5 };
    lemma_appended(9, messages6, v.attributes, put6, step);
    assert(stepped(part6, v5, step) == Ok::<HistogramView, Fault>(v6));
    lemma_stepped_concat(part1 + part2 + part3 + part4 + part5, part6, v0, step);
}

proof fn lemma_histogram_point(v: HistogramView, num: Numerals, bound: Bounds)
    requires
        histogram_point_fits(v, num, bound),
        histogram_point_bytes(v, bound).len() <= usize::MAX,
    ensures
        histogram_point_message(histogram_point_bytes(v, bound), num, bound)
            == Ok::<HistogramView, Fault>(v),
{
    lemma_histogram_point_len(v, bound);
    lemma_attributes(9, v.attributes, num);
    lemma_histogram_point_steps(v, num, bound);
    lemma_message_read(
        histogram_point_fields(v, bound),
        HistogramView::none(),
        histogram_point_step(num, bound),
    );
}

pub open spec fn histogram_points_fields(v: HistogramsView, bound: Bounds) -> Seq<Field> {
    repeated(1, v.data_points.map_values(|inner: HistogramView| histogram_point_bytes(inner, bound)))
        + enum_field(2, v.temporality)
}

/// A `Histogram` message.
pub open spec fn histogram_points_bytes(v: HistogramsView, bound: Bounds) -> Seq<u8> {
    message_bytes(histogram_points_fields(v, bound))
}

/// What the wire can carry of it.
pub open spec fn histogram_points_fits(v: HistogramsView, num: Numerals, bound: Bounds) -> bool {
    &&& v.data_points.len() <= MAX_REPEATED
    &&& forall|i: int| 0 <= i < v.data_points.len()
        ==> histogram_point_fits(#[trigger] v.data_points[i], num, bound)
    &&& enum_fits(v.temporality)
}

proof fn lemma_histogram_points(v: HistogramsView, num: Numerals, bound: Bounds)
    requires
        histogram_points_fits(v, num, bound),
        histogram_points_bytes(v, bound).len() <= usize::MAX,
    ensures
        histogram_points_message(histogram_points_bytes(v, bound), num, bound)
            == Ok::<HistogramsView, Fault>(v),
{
    broadcast use group_fields;

    let step = histogram_points_step(num, bound);
    let none = HistogramsView::none();
    let mid = HistogramsView { ..none };
    let messages = v.data_points.map_values(
        |inner: HistogramView| histogram_point_bytes(inner, bound),
    );
    let put = |list: Seq<HistogramView>| HistogramsView { data_points: list, ..mid };
    assert forall|list: Seq<HistogramView>, i: int|
        0 <= i < v.data_points.len() && list.len() == i implies #[trigger] step(
        put(list),
        1,
        Payload::Bytes(messages[i]),
        0,
    ) == Ok::<HistogramsView, Fault>(put(list.push(v.data_points[i]))) by {
        lemma_repeated_len(1, messages, i);
        lemma_histogram_point(v.data_points[i], num, bound);
    }
    lemma_appended(1, messages, v.data_points, put, step);
    assert(stepped(histogram_points_fields(v, bound), none, step)
        == Ok::<HistogramsView, Fault>(v));
    lemma_message_read(histogram_points_fields(v, bound), none, step);
}

pub open spec fn metric_fields(v: MetricView, bound: Bounds) -> Seq<Field> {
    text_field(1, v.name) + text_field(3, v.unit) + maybe_bytes(
        5,
        match v.gauge {
            Some(inner) => Some(number_points_bytes(inner)),
            None => None,
        },
    ) + maybe_bytes(
        7,
        match v.sum {
            Some(inner) => Some(sum_bytes(inner)),
            None => None,
        },
    ) + maybe_bytes(
        9,
        match v.histogram {
            Some(inner) => Some(histogram_points_bytes(inner, bound)),
            None => None,
        },
    ) + maybe_bytes(
        10,
        if v.exponential_histogram {
            Some(Seq::empty())
        } else {
            None
        },
    ) + maybe_bytes(
        11,
        if v.summary {
            Some(Seq::empty())
        } else {
            None
        },
    )
}

/// A `Metric` message.
pub open spec fn metric_bytes(v: MetricView, bound: Bounds) -> Seq<u8> {
    message_bytes(metric_fields(v, bound))
}

/// What the wire can carry of it.
pub open spec fn metric_fits(v: MetricView, num: Numerals, bound: Bounds) -> bool {
    &&& match v.gauge {
        Some(inner) => number_points_fits(inner, num),
        None => true,
    }
    &&& match v.sum {
        Some(inner) => sum_fits(inner, num),
        None => true,
    }
    &&& match v.histogram {
        Some(inner) => histogram_points_fits(inner, num, bound),
        None => true,
    }
}

/// What it holds is no longer than it.
proof fn lemma_metric_len(v: MetricView, bound: Bounds)
    ensures
        match v.gauge {
            Some(inner) => number_points_bytes(inner).len() <= metric_bytes(v, bound).len(),
            None => true,
        },
        match v.sum {
            Some(inner) => sum_bytes(inner).len() <= metric_bytes(v, bound).len(),
            None => true,
        },
        match v.histogram {
            Some(inner) => histogram_points_bytes(inner, bound).len()
                <= metric_bytes(v, bound).len(),
            None => true,
        },
{
    broadcast use {lemma_message_concat, lemma_maybe_bytes_len};

}

/// Its fields give it back, once what it holds is read back.
proof fn lemma_metric_steps(v: MetricView, num: Numerals, bound: Bounds)
    requires
        metric_fits(v, num, bound),
        match v.gauge {
            Some(inner) => number_points_message(number_points_bytes(inner), num)
                == Ok::<Seq<PointView>, Fault>(inner),
            None => true,
        },
        match v.sum {
            Some(inner) => sum_message(sum_bytes(inner), num) == Ok::<SumView, Fault>(inner),
            None => true,
        },
        match v.histogram {
            Some(inner) => histogram_points_message(histogram_points_bytes(inner, bound), num, bound)
                == Ok::<HistogramsView, Fault>(inner),
            None => true,
        },
    ensures
        stepped(metric_fields(v, bound), MetricView::none(), metric_step(num, bound))
            == Ok::<MetricView, Fault>(v),
{
    let step = metric_step(num, bound);
    lemma_text(v.name, 0);
    lemma_text(v.unit, 0);
    let v0 = MetricView::none();
    let v1 = MetricView { name: v.name, ..v0 };
    let v2 = MetricView { unit: v.unit, ..v1 };
    let v3 = MetricView { gauge: v.gauge, ..v2 };
    let v4 = MetricView { sum: v.sum, ..v3 };
    let v5 = MetricView { histogram: v.histogram, ..v4 };
    let v6 = MetricView { exponential_histogram: v.exponential_histogram, ..v5 };
    let v7 = MetricView { summary: v.summary, ..v6 };
    let part1 = text_field(1, v.name);
    lemma_text_field(1, v.name, v0, step);
    assert(stepped(part1, v0, step) == Ok::<MetricView, Fault>(v1));
    let part2 = text_field(3, v.unit);
    lemma_text_field(3, v.unit, v1, step);
    assert(stepped(part2, v1, step) == Ok::<MetricView, Fault>(v2));
    lemma_stepped_concat(part1, part2, v0, step);
    let part3 = maybe_bytes(
        5,
        match v.gauge {
            Some(inner) => Some(number_points_bytes(inner)),
            None => None,
        },
    );
    lemma_maybe_bytes(
        5,
        match v.gauge {
            Some(inner) => Some(number_points_bytes(inner)),
            None => None,
        },
        v2,
        step,
    );
    assert(stepped(part3, v2, step) == Ok::<MetricView, Fault>(v3));
    lemma_stepped_concat(part1 + part2, part3, v0, step);
    let part4 = maybe_bytes(7, match v.sum { Some(inner) => Some(sum_bytes(inner)), None => None });
    lemma_maybe_bytes(
        7,
        match v.sum {
            Some(inner) => Some(sum_bytes(inner)),
            None => None,
        },
        v3,
        step,
    );
    assert(stepped(part4, v3, step) == Ok::<MetricView, Fault>(v4));
    lemma_stepped_concat(part1 + part2 + part3, part4, v0, step);
    let part5 = maybe_bytes(
        9,
        match v.histogram {
            Some(inner) => Some(histogram_points_bytes(inner, bound)),
            None => None,
        },
    );
    lemma_maybe_bytes(
        9,
        match v.histogram {
            Some(inner) => Some(histogram_points_bytes(inner, bound)),
            None => None,
        },
        v4,
        step,
    );
    assert(stepped(part5, v4, step) == Ok::<MetricView, Fault>(v5));
    lemma_stepped_concat(part1 + part2 + part3 + part4, part5, v0, step);
    let part6 = maybe_bytes(
        10,
        if v.exponential_histogram {
            Some(Seq::empty())
        } else {
            None
        },
    );
    lemma_maybe_bytes(
        10,
        if v.exponential_histogram {
            Some(Seq::empty())
        } else {
            None
        },
        v5,
        step,
    );
    assert(stepped(part6, v5, step) == Ok::<MetricView, Fault>(v6));
    lemma_stepped_concat(part1 + part2 + part3 + part4 + part5, part6, v0, step);
    let part7 = maybe_bytes(
        11,
        if v.summary {
            Some(Seq::empty())
        } else {
            None
        },
    );
    lemma_maybe_bytes(
        11,
        if v.summary {
            Some(Seq::empty())
        } else {
            None
        },
        v6,
        step,
    );
    assert(stepped(part7, v6, step) == Ok::<MetricView, Fault>(v7));
    lemma_stepped_concat(part1 + part2 + part3 + part4 + part5 + part6, part7, v0, step);
}

proof fn lemma_metric(v: MetricView, num: Numerals, bound: Bounds)
    requires
        metric_fits(v, num, bound),
        metric_bytes(v, bound).len() <= usize::MAX,
    ensures
        metric_message(metric_bytes(v, bound), num, bound) == Ok::<MetricView, Fault>(v),
{
    lemma_metric_len(v, bound);
    if let Some(inner) = v.gauge {
        lemma_number_points(inner, num);
    }
    if let Some(inner) = v.sum {
        lemma_sum(inner, num);
    }
    if let Some(inner) = v.histogram {
        lemma_histogram_points(inner, num, bound);
    }
    lemma_metric_steps(v, num, bound);
    lemma_message_read(metric_fields(v, bound), MetricView::none(), metric_step(num, bound));
}

pub open spec fn scope_metrics_fields(v: ScopeMetricsView, bound: Bounds) -> Seq<Field> {
    maybe_bytes(
        1,
        match v.scope {
            Some(inner) => Some(scope_bytes(inner)),
            None => None,
        },
    ) + repeated(2, v.metrics.map_values(|inner: MetricView| metric_bytes(inner, bound)))
}

/// A `ScopeMetrics` message.
pub open spec fn scope_metrics_bytes(v: ScopeMetricsView, bound: Bounds) -> Seq<u8> {
    message_bytes(scope_metrics_fields(v, bound))
}

/// What the wire can carry of it.
pub open spec fn scope_metrics_fits(v: ScopeMetricsView, num: Numerals, bound: Bounds) -> bool {
    &&& match v.scope {
        Some(inner) => scope_fits(inner, num),
        None => true,
    }
    &&& v.metrics.len() <= MAX_REPEATED
    &&& forall|i: int| 0 <= i < v.metrics.len() ==> metric_fits(#[trigger] v.metrics[i], num, bound)
}

#[verifier::spinoff_prover]
#[verifier::rlimit(50)]
proof fn lemma_scope_metrics(v: ScopeMetricsView, num: Numerals, bound: Bounds)
    requires
        scope_metrics_fits(v, num, bound),
        scope_metrics_bytes(v, bound).len() <= usize::MAX,
    ensures
        scope_metrics_message(scope_metrics_bytes(v, bound), num, bound)
            == Ok::<ScopeMetricsView, Fault>(v),
{
    broadcast use group_fields;

    let step = scope_metrics_step(num, bound);
    let none = ScopeMetricsView::none();
    if let Some(inner) = v.scope {
        lemma_scope(inner, num);
    }
    let mid = ScopeMetricsView { scope: v.scope, ..none };
    let messages = v.metrics.map_values(|inner: MetricView| metric_bytes(inner, bound));
    let put = |list: Seq<MetricView>| ScopeMetricsView { metrics: list, ..mid };
    assert forall|list: Seq<MetricView>, i: int|
        0 <= i < v.metrics.len() && list.len() == i implies #[trigger] step(
        put(list),
        2,
        Payload::Bytes(messages[i]),
        0,
    ) == Ok::<ScopeMetricsView, Fault>(put(list.push(v.metrics[i]))) by {
        lemma_repeated_len(2, messages, i);
        lemma_metric(v.metrics[i], num, bound);
    }
    lemma_appended(2, messages, v.metrics, put, step);
    assert(stepped(scope_metrics_fields(v, bound), none, step) == Ok::<ScopeMetricsView, Fault>(v));
    lemma_message_read(scope_metrics_fields(v, bound), none, step);
}

pub open spec fn resource_metrics_fields(v: ResourceMetricsView, bound: Bounds) -> Seq<Field> {
    maybe_bytes(
        1,
        match v.resource {
            Some(inner) => Some(resource_bytes(inner)),
            None => None,
        },
    )
        + repeated(
        2,
        v.scope_metrics.map_values(|inner: ScopeMetricsView| scope_metrics_bytes(inner, bound)),
    )
}

/// A `ResourceMetrics` message.
pub open spec fn resource_metrics_bytes(v: ResourceMetricsView, bound: Bounds) -> Seq<u8> {
    message_bytes(resource_metrics_fields(v, bound))
}

/// What the wire can carry of it.
pub open spec fn resource_metrics_fits(
    v: ResourceMetricsView,
    num: Numerals,
    bound: Bounds,
) -> bool {
    &&& match v.resource {
        Some(inner) => resource_fits(inner, num),
        None => true,
    }
    &&& v.scope_metrics.len() <= MAX_REPEATED
    &&& forall|i: int| 0 <= i < v.scope_metrics.len()
        ==> scope_metrics_fits(#[trigger] v.scope_metrics[i], num, bound)
}

#[verifier::spinoff_prover]
#[verifier::rlimit(50)]
proof fn lemma_resource_metrics(v: ResourceMetricsView, num: Numerals, bound: Bounds)
    requires
        resource_metrics_fits(v, num, bound),
        resource_metrics_bytes(v, bound).len() <= usize::MAX,
    ensures
        resource_metrics_message(resource_metrics_bytes(v, bound), num, bound)
            == Ok::<ResourceMetricsView, Fault>(v),
{
    broadcast use group_fields;

    let step = resource_metrics_step(num, bound);
    let none = ResourceMetricsView::none();
    if let Some(inner) = v.resource {
        lemma_resource(inner, num);
    }
    let mid = ResourceMetricsView { resource: v.resource, ..none };
    let messages = v.scope_metrics.map_values(
        |inner: ScopeMetricsView| scope_metrics_bytes(inner, bound),
    );
    let put = |list: Seq<ScopeMetricsView>| ResourceMetricsView { scope_metrics: list, ..mid };
    assert forall|list: Seq<ScopeMetricsView>, i: int|
        0 <= i < v.scope_metrics.len() && list.len() == i implies #[trigger] step(
        put(list),
        2,
        Payload::Bytes(messages[i]),
        0,
    ) == Ok::<ResourceMetricsView, Fault>(put(list.push(v.scope_metrics[i]))) by {
        lemma_repeated_len(2, messages, i);
        lemma_scope_metrics(v.scope_metrics[i], num, bound);
    }
    lemma_appended(2, messages, v.scope_metrics, put, step);
    assert(stepped(resource_metrics_fields(v, bound), none, step)
        == Ok::<ResourceMetricsView, Fault>(v));
    lemma_message_read(resource_metrics_fields(v, bound), none, step);
}

pub open spec fn metrics_fields(v: Seq<ResourceMetricsView>, bound: Bounds) -> Seq<Field> {
    repeated(1, v.map_values(|inner: ResourceMetricsView| resource_metrics_bytes(inner, bound)))
}

/// A request to export metrics.
pub open spec fn metrics_bytes(v: Seq<ResourceMetricsView>, bound: Bounds) -> Seq<u8> {
    message_bytes(metrics_fields(v, bound))
}

/// What the wire can carry of it.
pub open spec fn metrics_fits(v: Seq<ResourceMetricsView>, num: Numerals, bound: Bounds) -> bool {
    &&& v.len() <= MAX_REPEATED
    &&& forall|i: int| 0 <= i < v.len() ==> resource_metrics_fits(#[trigger] v[i], num, bound)
}

#[verifier::spinoff_prover]
#[verifier::rlimit(50)]
proof fn lemma_metrics(v: Seq<ResourceMetricsView>, num: Numerals, bound: Bounds)
    requires
        metrics_fits(v, num, bound),
        metrics_bytes(v, bound).len() <= usize::MAX,
    ensures
        metrics_message(metrics_bytes(v, bound), num, bound)
            == Ok::<Seq<ResourceMetricsView>, Fault>(v),
{
    broadcast use group_fields;

    let step = metrics_step(num, bound);
    let none = Seq::<ResourceMetricsView>::empty();
    let messages = v.map_values(|inner: ResourceMetricsView| resource_metrics_bytes(inner, bound));
    let put = |list: Seq<ResourceMetricsView>| list;
    assert forall|list: Seq<ResourceMetricsView>, i: int|
        0 <= i < v.len() && list.len() == i implies #[trigger] step(
        put(list),
        1,
        Payload::Bytes(messages[i]),
        0,
    ) == Ok::<Seq<ResourceMetricsView>, Fault>(put(list.push(v[i]))) by {
        lemma_repeated_len(1, messages, i);
        lemma_resource_metrics(v[i], num, bound);
    }
    lemma_appended(1, messages, v, put, step);
    assert(stepped(metrics_fields(v, bound), none, step)
        == Ok::<Seq<ResourceMetricsView>, Fault>(v));
    lemma_message_read(metrics_fields(v, bound), none, step);
}

/// Law: metrics that were written in protobuf are read back, every field of them.
pub proof fn law_written_metrics_are_read(v: Seq<ResourceMetricsView>, num: Numerals, bound: Bounds)
    requires
        metrics_fits(v, num, bound),
        metrics_bytes(v, bound).len() <= usize::MAX,
    ensures
        metrics_message(metrics_bytes(v, bound), num, bound)
            == Ok::<Seq<ResourceMetricsView>, Fault>(v),
{
    lemma_metrics(v, num, bound);
}

/// Law: a protobuf batch and the equivalent JSON batch come to the same records, the same
/// refusals and the same counts. JSON is read into these values as they are, and what is read
/// of their encoding is converted to what they are converted to.
pub proof fn law_encodings_agree(
    logs: Seq<ResourceLogsView>,
    traces: Seq<ResourceSpansView>,
    metrics: Seq<ResourceMetricsView>,
    num: Numerals,
    bound: Bounds,
    ctx: ContextView,
    budget: usize,
)
    requires
        logs_fits(logs, num),
        logs_bytes(logs).len() <= usize::MAX,
        traces_fits(traces, num),
        traces_bytes(traces).len() <= usize::MAX,
        metrics_fits(metrics, num, bound),
        metrics_bytes(metrics, bound).len() <= usize::MAX,
    ensures
        match logs_message(logs_bytes(logs), num) {
            Ok(read) => crate::logs::data_tally(read, read.len(), ctx, budget)
                == crate::logs::data_tally(logs, logs.len(), ctx, budget),
            Err(_) => false,
        },
        match traces_message(traces_bytes(traces), num) {
            Ok(read) => crate::traces::data_tally(read, read.len(), ctx, budget)
                == crate::traces::data_tally(traces, traces.len(), ctx, budget),
            Err(_) => false,
        },
        match metrics_message(metrics_bytes(metrics, bound), num, bound) {
            Ok(read) => crate::otlp_metrics::data_tally(read, read.len(), ctx, budget)
                == crate::otlp_metrics::data_tally(metrics, metrics.len(), ctx, budget),
            Err(_) => false,
        },
{
    law_written_logs_are_read(logs, num);
    law_written_traces_are_read(traces, num);
    law_written_metrics_are_read(metrics, num, bound);
}

} // verus!
