//! The few protobuf writers that the trace responses need.
//!
//! Zero and empty scalars are left out, as proto3 does; a nested message is always
//! written, since its presence carries meaning.
use vstd::prelude::*;
use vstd::utf8::encode_utf8;

use crate::protobuf::{
    field_at, key_at, le_value, scale_of, varint_at, varint_from, Payload, PayloadView, WireType,
};
use crate::text::{chars_of, is_hex_digit};

verus! {

// ---------------------------------------------------------------------------
// What is written
// ---------------------------------------------------------------------------

/// A number in groups of seven bits, least significant first, each but the last with its
/// high bit set.
pub open spec fn varint_bytes(value: nat) -> Seq<u8>
    decreases value,
{
    if value < 128 {
        seq![value as u8]
    } else {
        seq![(value % 128 + 128) as u8] + varint_bytes(value / 128)
    }
}

/// The key of a field.
pub open spec fn tag_bytes(field: nat, wire: nat) -> Seq<u8> {
    varint_bytes(field * 8 + wire)
}

/// A length-delimited field.
pub open spec fn message_field(field: nat, payload: Seq<u8>) -> Seq<u8> {
    tag_bytes(field, 2) + varint_bytes(payload.len()) + payload
}

/// A field of bytes, left out where there are none.
pub open spec fn bytes_field(field: nat, payload: Seq<u8>) -> Seq<u8> {
    if payload.len() == 0 {
        Seq::empty()
    } else {
        message_field(field, payload)
    }
}

/// A field of text, left out where it is empty.
pub open spec fn string_field(field: nat, text: Seq<char>) -> Seq<u8> {
    bytes_field(field, encode_utf8(text))
}

/// A varint field, left out where it is zero.
pub open spec fn uint_field(field: nat, value: nat) -> Seq<u8> {
    if value == 0 {
        Seq::empty()
    } else {
        tag_bytes(field, 0) + varint_bytes(value)
    }
}

/// The `n` low bytes of a number, least significant first.
pub open spec fn le_bytes(value: nat, n: nat) -> Seq<u8>
    decreases n,
{
    if n == 0 {
        Seq::empty()
    } else {
        seq![(value % 256) as u8] + le_bytes(value / 256, (n - 1) as nat)
    }
}

/// A field of eight bytes, left out where it is zero.
pub open spec fn fixed64_field(field: nat, value: nat) -> Seq<u8> {
    if value == 0 {
        Seq::empty()
    } else {
        tag_bytes(field, 1) + le_bytes(value, 8)
    }
}

/// The value of a hexadecimal digit.
pub open spec fn hex_value(c: char) -> nat {
    if '0' <= c && c <= '9' {
        (c as u32 - '0' as u32) as nat
    } else if 'a' <= c && c <= 'f' {
        (c as u32 - 'a' as u32 + 10) as nat
    } else {
        (c as u32 - 'A' as u32 + 10) as nat
    }
}

pub open spec fn all_hex(text: Seq<char>) -> bool {
    forall|i: int| 0 <= i < text.len() ==> is_hex_digit(#[trigger] text[i])
}

/// The bytes that a text writes in hexadecimal. A text that is not hexadecimal stands for
/// no bytes at all rather than for wrong ones.
pub open spec fn hex_bytes(text: Seq<char>) -> Seq<u8> {
    if text.len() % 2 == 0 && all_hex(text) {
        Seq::new(
            text.len() / 2,
            |i: int| (hex_value(text[2 * i]) * 16 + hex_value(text[2 * i + 1])) as u8,
        )
    } else {
        Seq::empty()
    }
}

// ---------------------------------------------------------------------------
// Writers
// ---------------------------------------------------------------------------

/// Writes a varint.
pub fn varint(out: &mut Vec<u8>, value: u64)
    ensures
        final(out)@ == old(out)@ + varint_bytes(value as nat),
{
    let ghost start = out@;
    let mut rest: u64 = value;
    assert(start + varint_bytes(value as nat) =~= out@ + varint_bytes(rest as nat));
    while rest >= 128
        invariant
            start == old(out)@,
            start + varint_bytes(value as nat) == out@ + varint_bytes(rest as nat),
        decreases rest,
    {
        let byte: u8 = (rest % 128) as u8 + 128;
        assert(out@ + (seq![byte] + varint_bytes((rest / 128) as nat)) =~= out@.push(byte)
            + varint_bytes((rest / 128) as nat));
        out.push(byte);
        rest = rest / 128;
    }
    assert(out@ + seq![rest as u8] =~= out@.push(rest as u8));
    out.push(rest as u8);
}

/// Writes a field's key.
pub fn tag(out: &mut Vec<u8>, field: u32, wire: u8)
    requires
        wire < 8,
    ensures
        final(out)@ == old(out)@ + tag_bytes(field as nat, wire as nat),
{
    varint(out, field as u64 * 8 + wire as u64);
}

/// Writes a nested message.
pub fn message(out: &mut Vec<u8>, field: u32, payload: &[u8])
    ensures
        final(out)@ == old(out)@ + message_field(field as nat, payload@),
{
    let ghost start = out@;
    tag(out, field, 2);
    varint(out, payload.len() as u64);
    extend(out, payload);
    assert(out@ =~= start + message_field(field as nat, payload@));
}

fn extend(out: &mut Vec<u8>, more: &[u8])
    ensures
        final(out)@ == old(out)@ + more@,
{
    let ghost start = out@;
    let mut i: usize = 0;
    assert(start + more@.take(0) =~= start);
    while i < more.len()
        invariant
            i <= more@.len(),
            start == old(out)@,
            out@ == start + more@.take(i as int),
        decreases more@.len() - i,
    {
        out.push(more[i]);
        assert(out@ =~= start + more@.take(i as int + 1));
        i += 1;
    }
    assert(more@.take(i as int) =~= more@);
}

/// Writes bytes, unless there are none.
pub fn bytes(out: &mut Vec<u8>, field: u32, payload: &[u8])
    ensures
        final(out)@ == old(out)@ + bytes_field(field as nat, payload@),
{
    if payload.len() > 0 {
        message(out, field, payload);
    } else {
        assert(out@ + Seq::<u8>::empty() =~= out@);
    }
}

/// Writes a text, unless it is empty.
pub fn string(out: &mut Vec<u8>, field: u32, text: &str)
    ensures
        final(out)@ == old(out)@ + string_field(field as nat, text@),
{
    bytes(out, field, text.as_bytes());
}

/// Writes a number as a varint, unless it is zero.
pub fn uint(out: &mut Vec<u8>, field: u32, value: u64)
    ensures
        final(out)@ == old(out)@ + uint_field(field as nat, value as nat),
{
    let ghost start = out@;
    if value != 0 {
        tag(out, field, 0);
        varint(out, value);
    }
    assert(out@ =~= start + uint_field(field as nat, value as nat));
}

/// Writes a number as eight bytes, unless it is zero.
pub fn fixed64(out: &mut Vec<u8>, field: u32, value: u64)
    ensures
        final(out)@ == old(out)@ + fixed64_field(field as nat, value as nat),
{
    let ghost start = out@;
    if value != 0 {
        tag(out, field, 1);
        let ghost keyed = out@;
        let mut rest: u64 = value;
        let mut i: usize = 0;
        assert(keyed + le_bytes(value as nat, 8) =~= out@ + le_bytes(rest as nat, 8));
        while i < 8
            invariant
                i <= 8,
                keyed + le_bytes(value as nat, 8) == out@ + le_bytes(rest as nat, (8 - i) as nat),
            decreases 8 - i,
        {
            let byte: u8 = (rest % 256) as u8;
            assert(out@ + (seq![byte] + le_bytes((rest / 256) as nat, (7 - i) as nat))
                =~= out@.push(byte) + le_bytes((rest / 256) as nat, (7 - i) as nat));
            out.push(byte);
            rest = rest / 256;
            i += 1;
        }
        assert(out@ + le_bytes(rest as nat, 0) =~= out@);
    }
    assert(out@ =~= start + fixed64_field(field as nat, value as nat));
}

fn hex_digit(c: char) -> (d: u8)
    requires
        is_hex_digit(c),
    ensures
        d == hex_value(c),
        d < 16,
{
    if c <= '9' {
        c as u8 - 48u8
    } else if c >= 'a' {
        c as u8 - 87u8
    } else {
        c as u8 - 55u8
    }
}

/// The bytes that `text` writes in hexadecimal.
pub fn hex(text: &str) -> (out: Vec<u8>)
    ensures
        out@ == hex_bytes(text@),
{
    let chars: Vec<char> = chars_of(text);
    let mut out: Vec<u8> = Vec::new();
    if chars.len() % 2 != 0 {
        assert(out@ =~= hex_bytes(text@));
        return out;
    }
    let mut i: usize = 0;
    while i < chars.len()
        invariant
            chars@ == text@,
            chars@.len() % 2 == 0,
            i % 2 == 0,
            i <= chars@.len(),
            out@.len() == i / 2,
            forall|j: int| 0 <= j < i ==> is_hex_digit(#[trigger] chars@[j]),
            forall|j: int|
                0 <= j < out@.len() ==> #[trigger] out@[j] == (hex_value(text@[2 * j]) * 16
                    + hex_value(text@[2 * j + 1])) as u8,
        decreases chars@.len() - i,
    {
        if !is_hex_digit(chars[i]) || !is_hex_digit(chars[i + 1]) {
            let none: Vec<u8> = Vec::new();
            assert(!all_hex(text@));
            assert(none@ =~= hex_bytes(text@));
            return none;
        }
        assert(2 * (i / 2) == i);
        out.push(hex_digit(chars[i]) * 16 + hex_digit(chars[i + 1]));
        i += 2;
    }
    assert(out@ =~= hex_bytes(text@));
    out
}

// ---------------------------------------------------------------------------
// Laws
// ---------------------------------------------------------------------------

proof fn lemma_varint_len(value: nat, k: int)
    requires
        1 <= k,
        value < scale_of(k),
    ensures
        1 <= varint_bytes(value).len() <= k,
    decreases k,
{
    if value >= 128 {
        if k == 1 {
            reveal_with_fuel(scale_of, 2);
        } else {
            lemma_varint_len(value / 128, k - 1);
        }
    }
}

/// A varint of a 64-bit number takes one to ten bytes.
pub proof fn law_varint_is_short(value: u64)
    ensures
        1 <= varint_bytes(value as nat).len() <= 10,
{
    reveal_with_fuel(scale_of, 11);
    lemma_varint_len(value as nat, 10);
}

proof fn lemma_varint_read(
    bytes: Seq<u8>,
    at: int,
    value: nat,
    groups: int,
    scale: int,
    sofar: int,
)
    requires
        0 <= at,
        at + varint_bytes(value).len() <= bytes.len(),
        bytes.subrange(at, at + varint_bytes(value).len()) == varint_bytes(value),
        0 <= groups,
        groups + varint_bytes(value).len() <= 10,
    ensures
        varint_from(bytes, at, groups, scale, sofar) == Ok::<(u64, int), (Seq<char>, int)>(
            (
                ((sofar + value * scale) % 0x1_0000_0000_0000_0000) as u64,
                at + varint_bytes(value).len(),
            ),
        ),
    decreases value,
{
    let written = varint_bytes(value);
    assert(bytes[at] == bytes.subrange(at, at + written.len())[0]);
    if value >= 128 {
        let rest = varint_bytes(value / 128);
        assert(written.len() == rest.len() + 1);
        assert(bytes.subrange(at + 1, at + 1 + rest.len()) =~= rest) by {
            assert forall|i: int| 0 <= i < rest.len() implies bytes.subrange(
                at + 1,
                at + 1 + rest.len(),
            )[i] == rest[i] by {
                assert(bytes.subrange(at, at + written.len())[i + 1] == written[i + 1]);
            }
        }
        let next = sofar + (bytes[at] % 128) * scale;
        lemma_varint_read(bytes, at + 1, value / 128, groups + 1, scale * 128, next);
        assert(next + (value / 128) * (scale * 128) == sofar + value * scale) by (nonlinear_arith)
            requires
                next == sofar + (value % 128) * scale,
                value == (value / 128) * 128 + value % 128,
        ;
    }
}

/// A varint that was written is read back, wherever it stands.
pub proof fn law_varint_round_trip(before: Seq<u8>, value: u64, after: Seq<u8>)
    ensures
        varint_at(before + varint_bytes(value as nat) + after, before.len() as int) == Ok::<
            (u64, int),
            (Seq<char>, int),
        >((value, (before.len() + varint_bytes(value as nat).len()) as int)),
{
    let written = varint_bytes(value as nat);
    let all = before + written + after;
    law_varint_is_short(value);
    assert(all.subrange(before.len() as int, (before.len() + written.len()) as int) =~= written);
    lemma_varint_read(all, before.len() as int, value as nat, 0, 1, 0);
}

/// Bytes that a number was written in give it back.
pub proof fn lemma_le_round_trip(value: nat, n: nat)
    requires
        value < le_limit(n),
    ensures
        le_bytes(value, n).len() == n,
        le_value(le_bytes(value, n)) == value,
    decreases n,
{
    if n > 0 {
        lemma_le_round_trip(value / 256, (n - 1) as nat);
        assert(le_bytes(value, n).drop_first() =~= le_bytes(value / 256, (n - 1) as nat));
    }
}

/// Past what `n` bytes can hold.
pub open spec fn le_limit(n: nat) -> nat
    decreases n,
{
    if n == 0 {
        1
    } else {
        256 * le_limit((n - 1) as nat)
    }
}

proof fn lemma_key_round_trip(before: Seq<u8>, field: u32, wire: nat, after: Seq<u8>)
    requires
        wire == 0 || wire == 1 || wire == 2 || wire == 5,
    ensures
        ({
            let key = tag_bytes(field as nat, wire);
            key_at(before + key + after, before.len() as int) == Ok::<
                (Option<(u32, WireType)>, int),
                (Seq<char>, int),
            >(
                (
                    Some((field, WireType::tagged(wire as int)->Some_0)),
                    (before.len() + key.len()) as int,
                ),
            )
        }),
{
    let value = (field * 8 + wire) as u64;
    law_varint_round_trip(before, value, after);
    law_varint_is_short(value);
    assert(value % 8 == wire);
    assert(value / 8 == field);
}

/// A length-delimited field that was written is read back, wherever it stands.
pub proof fn law_message_round_trip(before: Seq<u8>, field: u32, payload: Seq<u8>, after: Seq<u8>)
    requires
        payload.len() <= usize::MAX,
    ensures
        field_at(
            before + message_field(field as nat, payload) + after,
            before.len() as int,
        ) == Ok::<(Option<(u32, PayloadView)>, int), (Seq<char>, int)>(
            (
                Some((field, Payload::Bytes(payload))),
                (before.len() + message_field(field as nat, payload).len()) as int,
            ),
        ),
{
    let key = tag_bytes(field as nat, 2);
    let len = varint_bytes(payload.len());
    let all = before + message_field(field as nat, payload) + after;
    assert(all =~= before + key + (len + payload + after));
    lemma_key_round_trip(before, field, 2, len + payload + after);
    assert(all =~= (before + key) + len + (payload + after));
    law_varint_round_trip(before + key, payload.len() as u64, payload + after);
    let start = (before.len() + key.len() + len.len()) as int;
    assert(all.subrange(start, start + payload.len()) =~= payload);
}

/// A key and a varint behind it are read as a field.
pub proof fn lemma_varint_field_read(before: Seq<u8>, field: u32, value: u64, after: Seq<u8>)
    ensures
        ({
            let piece = tag_bytes(field as nat, 0) + varint_bytes(value as nat);
            field_at(before + piece + after, before.len() as int) == Ok::<
                (Option<(u32, PayloadView)>, int),
                (Seq<char>, int),
            >((Some((field, Payload::Varint(value))), (before.len() + piece.len()) as int))
        }),
{
    let key = tag_bytes(field as nat, 0);
    let written = varint_bytes(value as nat);
    let all = before + (key + written) + after;
    assert(all =~= before + key + (written + after));
    lemma_key_round_trip(before, field, 0, written + after);
    assert(all =~= (before + key) + written + after);
    law_varint_round_trip(before + key, value, after);
}

/// A key and eight bytes behind it are read as a field.
pub proof fn lemma_fixed64_read(before: Seq<u8>, field: u32, value: u64, after: Seq<u8>)
    ensures
        ({
            let piece = tag_bytes(field as nat, 1) + le_bytes(value as nat, 8);
            field_at(before + piece + after, before.len() as int) == Ok::<
                (Option<(u32, PayloadView)>, int),
                (Seq<char>, int),
            >((Some((field, Payload::Fixed64(value))), (before.len() + piece.len()) as int))
        }),
{
    let key = tag_bytes(field as nat, 1);
    let written = le_bytes(value as nat, 8);
    reveal_with_fuel(le_limit, 9);
    lemma_le_round_trip(value as nat, 8);
    let all = before + (key + written) + after;
    assert(all =~= before + key + (written + after));
    lemma_key_round_trip(before, field, 1, written + after);
    let start = (before.len() + key.len()) as int;
    assert(all.subrange(start, start + 8) =~= written);
}

/// A key and four bytes behind it are read as a field.
pub proof fn lemma_fixed32_read(before: Seq<u8>, field: u32, after: Seq<u8>)
    ensures
        ({
            let piece = tag_bytes(field as nat, 5) + le_bytes(0, 4);
            field_at(before + piece + after, before.len() as int) == Ok::<
                (Option<(u32, PayloadView)>, int),
                (Seq<char>, int),
            >((Some((field, Payload::Fixed32)), (before.len() + piece.len()) as int))
        }),
{
    let key = tag_bytes(field as nat, 5);
    let written = le_bytes(0, 4);
    reveal_with_fuel(le_limit, 5);
    lemma_le_round_trip(0, 4);
    let all = before + (key + written) + after;
    assert(all =~= before + key + (written + after));
    lemma_key_round_trip(before, field, 5, written + after);
}

/// A varint field that was written is read back, wherever it stands.
pub proof fn law_uint_round_trip(before: Seq<u8>, field: u32, value: u64, after: Seq<u8>)
    requires
        value != 0,
    ensures
        field_at(
            before + uint_field(field as nat, value as nat) + after,
            before.len() as int,
        ) == Ok::<(Option<(u32, PayloadView)>, int), (Seq<char>, int)>(
            (
                Some((field, Payload::Varint(value))),
                (before.len() + uint_field(field as nat, value as nat).len()) as int,
            ),
        ),
{
    lemma_varint_field_read(before, field, value, after);
}

/// An eight-byte field that was written is read back, wherever it stands.
pub proof fn law_fixed64_round_trip(before: Seq<u8>, field: u32, value: u64, after: Seq<u8>)
    requires
        value != 0,
    ensures
        field_at(
            before + fixed64_field(field as nat, value as nat) + after,
            before.len() as int,
        ) == Ok::<(Option<(u32, PayloadView)>, int), (Seq<char>, int)>(
            (
                Some((field, Payload::Fixed64(value))),
                (before.len() + fixed64_field(field as nat, value as nat).len()) as int,
            ),
        ),
{
    lemma_fixed64_read(before, field, value, after);
}

} // verus!
