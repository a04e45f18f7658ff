//! A minimal protobuf wire-format reader.
//!
//! Scope is narrow: this reads the wire format, it is not a protobuf implementation.
//! Unknown fields are skipped, as the format requires, so a producer that sends a newer
//! schema is handled rather than rejected.
use vstd::prelude::*;
use vstd::utf8::{decode_utf8, valid_utf8};

use crate::error::{refused, Error, Failure, Fault};
use crate::text::{decimal, decimal_text};

verus! {

// ---------------------------------------------------------------------------
// The wire format
// ---------------------------------------------------------------------------

/// Protobuf wire types.
#[derive(Debug, Clone, Copy, PartialEq, Eq, Structural)]
pub enum WireType {
    Varint,
    Fixed64,
    LengthDelimited,
    Fixed32,
    /// Deprecated group encoding. Recognised only so that it can be refused clearly.
    StartGroup,
    EndGroup,
}

impl WireType {
    /// The wire type of a tag's low three bits.
    pub open spec fn tagged(tag: int) -> Option<WireType> {
        if tag == 0 {
            Some(WireType::Varint)
        } else if tag == 1 {
            Some(WireType::Fixed64)
        } else if tag == 2 {
            Some(WireType::LengthDelimited)
        } else if tag == 3 {
            Some(WireType::StartGroup)
        } else if tag == 4 {
            Some(WireType::EndGroup)
        } else if tag == 5 {
            Some(WireType::Fixed32)
        } else {
            None
        }
    }

    fn from_tag(tag: u8) -> (wire: Option<WireType>)
        ensures
            wire == WireType::tagged(tag as int),
    {
        match tag {
            0 => Some(WireType::Varint),
            1 => Some(WireType::Fixed64),
            2 => Some(WireType::LengthDelimited),
            3 => Some(WireType::StartGroup),
            4 => Some(WireType::EndGroup),
            5 => Some(WireType::Fixed32),
            _ => None,
        }
    }
}

/// What reading at a position gives: a value and the position behind it, or what is wrong
/// and where.
pub type Read<T> = Result<(T, int), (Seq<char>, int)>;

/// A refusal that points at a byte of the payload.
pub open spec fn wire_fault(message: Seq<char>, at: int) -> Fault {
    refused(message + " at byte "@ + decimal(at as nat) + " of the protobuf payload"@)
}

/// The varint whose byte of weight `scale` stands at `at`, `groups` bytes into it, with
/// the value of the bytes before. A varint is at most ten bytes; bits past the 64th are
/// dropped.
pub open spec fn varint_from(
    bytes: Seq<u8>,
    at: int,
    groups: int,
    scale: int,
    sofar: int,
) -> Read<u64>
    decreases bytes.len() - at,
{
    if at < 0 || at >= bytes.len() {
        Err(("truncated varint"@, at))
    } else if groups >= 10 {
        Err(("varint overflows 64 bits"@, at + 1))
    } else {
        let value = sofar + (bytes[at] % 128) * scale;
        if bytes[at] < 128 {
            Ok(((value % 0x1_0000_0000_0000_0000) as u64, at + 1))
        } else {
            varint_from(bytes, at + 1, groups + 1, scale * 128, value)
        }
    }
}

/// The varint at a position.
pub open spec fn varint_at(bytes: Seq<u8>, at: int) -> Read<u64> {
    varint_from(bytes, at, 0, 1, 0)
}

/// The number that bytes write, least significant first.
pub open spec fn le_value(bytes: Seq<u8>) -> nat
    decreases bytes.len(),
{
    if bytes.len() == 0 {
        0
    } else {
        bytes[0] as nat + 256 * le_value(bytes.drop_first())
    }
}

/// The eight bytes at a position, as a number.
pub open spec fn fixed64_at(bytes: Seq<u8>, at: int) -> Read<u64> {
    if at + 8 <= bytes.len() {
        Ok((le_value(bytes.subrange(at, at + 8)) as u64, at + 8))
    } else {
        Err(("truncated fixed64"@, at))
    }
}

/// The length-delimited bytes at a position.
pub open spec fn bytes_at(bytes: Seq<u8>, at: int) -> Read<Seq<u8>> {
    match varint_at(bytes, at) {
        Err(wrong) => Err(wrong),
        Ok((len, start)) => if len > usize::MAX {
            Err(("length-delimited field is longer than this platform allows"@, start))
        } else if start + len <= bytes.len() {
            Ok((bytes.subrange(start, start + len), start + len))
        } else {
            Err(("truncated length-delimited field"@, start))
        },
    }
}

/// The text at a position.
pub open spec fn string_at(bytes: Seq<u8>, at: int) -> Read<Seq<char>> {
    match bytes_at(bytes, at) {
        Err(wrong) => Err(wrong),
        Ok((text, end)) => if valid_utf8(text) {
            Ok((decode_utf8(text), end))
        } else {
            Err(("string field is not valid UTF-8"@, end))
        },
    }
}

/// The field number and wire type at a position; none at the end.
pub open spec fn key_at(bytes: Seq<u8>, at: int) -> Read<Option<(u32, WireType)>> {
    if at >= bytes.len() {
        Ok((None, at))
    } else {
        match varint_at(bytes, at) {
            Err(wrong) => Err(wrong),
            Ok((key, end)) => match WireType::tagged((key % 8) as int) {
                None => Err(("unknown protobuf wire type"@, end)),
                Some(wire) => if key / 8 > u32::MAX {
                    Err(("field number out of range"@, end))
                } else if wire == WireType::StartGroup || wire == WireType::EndGroup {
                    Err(("protobuf group encoding is not supported"@, end))
                } else {
                    Ok((Some(((key / 8) as u32, wire)), end))
                },
            },
        }
    }
}

/// Behind the value of a wire type at a position.
pub open spec fn skip_at(bytes: Seq<u8>, at: int, wire: WireType) -> Read<()> {
    match wire {
        WireType::Varint => match varint_at(bytes, at) {
            Err(wrong) => Err(wrong),
            Ok((_, end)) => Ok(((), end)),
        },
        WireType::Fixed64 => match fixed64_at(bytes, at) {
            Err(wrong) => Err(wrong),
            Ok((_, end)) => Ok(((), end)),
        },
        WireType::Fixed32 => if at + 4 <= bytes.len() {
            Ok(((), at + 4))
        } else {
            Err(("truncated fixed32"@, at))
        },
        WireType::LengthDelimited => match bytes_at(bytes, at) {
            Err(wrong) => Err(wrong),
            Ok((_, end)) => Ok(((), end)),
        },
        WireType::StartGroup | WireType::EndGroup => Err(
            ("protobuf group encoding is not supported"@, at),
        ),
    }
}

/// A field's value, over the type that carries its bytes. What a four-byte value holds is
/// never looked at.
#[derive(Debug)]
pub enum Payload<B> {
    Varint(u64),
    Fixed64(u64),
    Bytes(B),
    Fixed32,
}

pub type PayloadView = Payload<Seq<u8>>;

pub open spec fn payload_view(payload: Payload<&[u8]>) -> PayloadView {
    match payload {
        Payload::Varint(value) => Payload::Varint(value),
        Payload::Fixed64(value) => Payload::Fixed64(value),
        Payload::Bytes(bytes) => Payload::Bytes(bytes@),
        Payload::Fixed32 => Payload::Fixed32,
    }
}

/// A value of a wire type at a position.
pub open spec fn payload_at(bytes: Seq<u8>, at: int, wire: WireType) -> Read<PayloadView> {
    match wire {
        WireType::Varint => match varint_at(bytes, at) {
            Err(wrong) => Err(wrong),
            Ok((value, end)) => Ok((Payload::Varint(value), end)),
        },
        WireType::Fixed64 => match fixed64_at(bytes, at) {
            Err(wrong) => Err(wrong),
            Ok((value, end)) => Ok((Payload::Fixed64(value), end)),
        },
        WireType::LengthDelimited => match bytes_at(bytes, at) {
            Err(wrong) => Err(wrong),
            Ok((value, end)) => Ok((Payload::Bytes(value), end)),
        },
        _ => match skip_at(bytes, at, wire) {
            Err(wrong) => Err(wrong),
            Ok((_, end)) => Ok((Payload::Fixed32, end)),
        },
    }
}

/// The field at a position: its number and its value; none at the end.
pub open spec fn field_at(bytes: Seq<u8>, at: int) -> Read<Option<(u32, PayloadView)>> {
    match key_at(bytes, at) {
        Err(wrong) => Err(wrong),
        Ok((None, end)) => Ok((None, end)),
        Ok((Some((number, wire)), next)) => match payload_at(bytes, next, wire) {
            Err(wrong) => Err(wrong),
            Ok((payload, end)) => Ok((Some((number, payload)), end)),
        },
    }
}

/// What a message makes of one of its fields: the new value, from the value so far, the
/// field's number, its value and the position behind it.
pub type Step<T> = spec_fn(T, u32, PayloadView, int) -> Result<T, Fault>;

/// A message read field by field from a position, starting from `out`.
pub open spec fn folded<T>(bytes: Seq<u8>, at: int, out: T, step: Step<T>) -> Result<T, Fault>
    decreases bytes.len() - at via folded_decreases::<T>
{
    match field_at(bytes, at) {
        Err((message, position)) => Err(wire_fault(message, position)),
        Ok((None, _)) => Ok(out),
        Ok((Some((number, payload)), next)) => match step(out, number, payload, next) {
            Err(fault) => Err(fault),
            Ok(after) => folded(bytes, next, after, step),
        },
    }
}

#[via_fn]
proof fn folded_decreases<T>(bytes: Seq<u8>, at: int, out: T, step: Step<T>) {
    lemma_field_at(bytes, at);
}

/// The text that a length-delimited field holds, where the field ends at `at`.
pub open spec fn text_value(bytes: Seq<u8>, at: int) -> Result<Seq<char>, Fault> {
    if valid_utf8(bytes) {
        Ok(decode_utf8(bytes))
    } else {
        Err(wire_fault("string field is not valid UTF-8"@, at))
    }
}

/// Reading a varint moves on inside the bytes; an error points inside them or at their
/// end.
pub proof fn lemma_varint_from(bytes: Seq<u8>, at: int, groups: int, scale: int, sofar: int)
    requires
        0 <= at,
    ensures
        match varint_from(bytes, at, groups, scale, sofar) {
            Ok((_, end)) => at < end <= bytes.len(),
            Err((_, position)) => at <= position && (at <= bytes.len() ==> position
                <= bytes.len()),
        },
    decreases bytes.len() - at,
{
    if at < bytes.len() && groups < 10 && bytes[at] >= 128 {
        lemma_varint_from(
            bytes,
            at + 1,
            groups + 1,
            scale * 128,
            sofar + (bytes[at] % 128) * scale,
        );
    }
}

/// A field ends behind where it starts, inside the bytes.
pub proof fn lemma_field_at(bytes: Seq<u8>, at: int)
    ensures
        match field_at(bytes, at) {
            Ok((Some(_), end)) => at < end <= bytes.len(),
            Ok((None, end)) => end == at,
            Err(_) => true,
        },
{
    if 0 <= at {
        lemma_varint_from(bytes, at, 0, 1, 0);
        match key_at(bytes, at) {
            Ok((Some(_), next)) => lemma_varint_from(bytes, next, 0, 1, 0),
            _ => {},
        }
    }
}

// ---------------------------------------------------------------------------
// Reader
// ---------------------------------------------------------------------------

/// A cursor over protobuf-encoded bytes.
#[derive(Debug)]
pub struct Reader<'a> {
    bytes: &'a [u8],
    pos: usize,
}

pub struct ReaderView {
    pub bytes: Seq<u8>,
    pub pos: int,
}

impl<'a> View for Reader<'a> {
    type V = ReaderView;

    closed spec fn view(&self) -> ReaderView {
        ReaderView { bytes: self.bytes@, pos: self.pos as int }
    }
}

/// What a reading function did, against what the format says stands there.
pub open spec fn reads<T>(
    before: ReaderView,
    after: ReaderView,
    r: Result<T, Error>,
    rule: Read<T>,
) -> bool {
    &&& after.bytes == before.bytes
    &&& match rule {
        Ok((value, end)) => r is Ok && r->Ok_0 == value && after.pos == end,
        Err((message, position)) => r is Err && r->Err_0@ == wire_fault(message, position)
            && after.pos == position,
    }
}

/// The same for a value that is read by its view.
pub open spec fn reads_view<T: View>(
    before: ReaderView,
    after: ReaderView,
    r: Result<T, Error>,
    rule: Read<T::V>,
) -> bool {
    &&& after.bytes == before.bytes
    &&& match rule {
        Ok((value, end)) => r is Ok && r->Ok_0@ == value && after.pos == end,
        Err((message, position)) => r is Err && r->Err_0@ == wire_fault(message, position)
            && after.pos == position,
    }
}

/// `std::str::from_utf8`: the text that `bytes` encode, where they are valid UTF-8.
#[verifier::external_body]
pub(crate) fn utf8_text(bytes: &[u8]) -> (text: Option<&str>)
    ensures
        text is Some <==> valid_utf8(bytes@),
        text is Some ==> text->Some_0@ == decode_utf8(bytes@),
{
    std::str::from_utf8(bytes).ok()
}

/// The refusal with `message`, at byte `at` of a payload.
pub fn wire_error(message: &str, at: usize) -> (error: Error)
    ensures
        error@ == wire_fault(message@, at as int),
{
    let mut text: String = message.to_owned();
    text.append(" at byte ");
    text.append(decimal_text(at as u64).as_str());
    text.append(" of the protobuf payload");
    Failure::BadRequest(text)
}

/// The text that a length-delimited field holds, where the field ends at `at`.
pub fn text_of(bytes: &[u8], at: usize) -> (r: Result<String, Error>)
    ensures
        crate::error::outcome(r) == text_value(bytes@, at as int),
{
    match utf8_text(bytes) {
        Some(text) => Ok(text.to_owned()),
        None => Err(wire_error("string field is not valid UTF-8", at)),
    }
}

impl<'a> Reader<'a> {
    pub fn new(bytes: &'a [u8]) -> (reader: Reader<'a>)
        ensures
            reader@ == (ReaderView { bytes: bytes@, pos: 0 }),
    {
        Reader { bytes, pos: 0 }
    }

    /// Whether every byte has been read.
    pub fn is_empty(&self) -> (r: bool)
        ensures
            r == (self@.pos >= self@.bytes.len()),
    {
        self.pos >= self.bytes.len()
    }

    /// How many bytes have been read.
    pub fn position(&self) -> (pos: usize)
        ensures
            pos == self@.pos,
    {
        self.pos
    }

    fn error(&self, message: &str) -> (error: Error)
        ensures
            error@ == wire_fault(message@, self@.pos),
    {
        wire_error(message, self.pos)
    }

    /// Reads the next field's number and wire type.
    pub fn next_field(&mut self) -> (r: Result<Option<(u32, WireType)>, Error>)
        ensures
            reads(old(self)@, final(self)@, r, key_at(old(self)@.bytes, old(self)@.pos)),
    {
        if self.is_empty() {
            return Ok(None);
        }
        let key: u64 = match self.varint() {
            Ok(key) => key,
            Err(error) => {
                return Err(error);
            },
        };
        let wire: WireType = match WireType::from_tag((key % 8) as u8) {
            Some(wire) => wire,
            None => {
                return Err(self.error("unknown protobuf wire type"));
            },
        };
        let number: u64 = key / 8;
        if number > u32::MAX as u64 {
            return Err(self.error("field number out of range"));
        }
        if wire == WireType::StartGroup || wire == WireType::EndGroup {
            return Err(self.error("protobuf group encoding is not supported"));
        }
        Ok(Some((number as u32, wire)))
    }

    /// Reads a varint.
    pub fn varint(&mut self) -> (r: Result<u64, Error>)
        ensures
            reads(old(self)@, final(self)@, r, varint_at(old(self)@.bytes, old(self)@.pos)),
    {
        let ghost bytes = self.bytes@;
        let ghost goal = varint_at(bytes, self.pos as int);
        let mut value: u64 = 0;
        let mut scale: u64 = 1;
        let mut groups: usize = 0;
        loop
            invariant
                bytes == self.bytes@,
                old(self)@.bytes == bytes,
                goal == varint_at(bytes, old(self)@.pos),
                0 <= groups <= 10,
                groups <= 9 ==> (scale <= 0x8000_0000_0000_0000 && value < scale && goal
                    == varint_from(bytes, self.pos as int, groups as int, scale as int, value as int)),
                groups == 9 ==> scale == 0x8000_0000_0000_0000,
                groups < 9 ==> scale <= 0x0100_0000_0000_0000,
                groups <= 9 ==> scale == scale_of(groups as int),
                groups == 10 ==> exists|wide: int, sofar: int|
                    goal == varint_from(bytes, self.pos as int, 10, wide, sofar),
            decreases bytes.len() - self.pos,
        {
            if self.pos >= self.bytes.len() {
                return Err(self.error("truncated varint"));
            }
            let byte: u8 = self.bytes[self.pos];
            self.pos = self.pos + 1;
            if groups == 10 {
                return Err(self.error("varint overflows 64 bits"));
            }
            let low: u64 = (byte % 128) as u64;
            let ghost before = value as int;
            let ghost weight = scale as int;
            let ghost exact = before + low * weight;
            proof {
                assert(low * scale <= 127 * scale) by (nonlinear_arith)
                    requires
                        low <= 127,
                        scale >= 0,
                ;
            }
            if groups < 9 {
                value = value + low * scale;
                if byte < 128 {
                    return Ok(value);
                }
                scale = if groups < 8 {
                    scale * 128
                } else {
                    0x8000_0000_0000_0000
                };
                proof {
                    lemma_scale(groups as int);
                    assert(exact < 128 * weight);
                }
            } else {
                let top: u64 = low % 2;
                value = value + top * 0x8000_0000_0000_0000;
                proof {
                    let whole = (low / 2) as int;
                    assert(exact == value + whole * 0x1_0000_0000_0000_0000) by (nonlinear_arith)
                        requires
                            exact == before + low * 0x8000_0000_0000_0000,
                            value == before + top * 0x8000_0000_0000_0000,
                            low == 2 * whole + top,
                    ;
                    vstd::arithmetic::div_mod::lemma_mod_multiples_vanish(
                        whole,
                        value as int,
                        0x1_0000_0000_0000_0000,
                    );
                    assert(whole * 0x1_0000_0000_0000_0000 == 0x1_0000_0000_0000_0000 * whole);
                    assert(exact % 0x1_0000_0000_0000_0000 == value as int);
                }
                if byte < 128 {
                    return Ok(value);
                }
                assert(goal == varint_from(
                    bytes,
                    self.pos as int,
                    10,
                    scale * 128,
                    exact,
                ));
            }
            groups = groups + 1;
        }
    }

    /// Reads eight bytes, least significant first.
    pub fn fixed64(&mut self) -> (r: Result<u64, Error>)
        ensures
            reads(old(self)@, final(self)@, r, fixed64_at(old(self)@.bytes, old(self)@.pos)),
    {
        let size: usize = self.bytes.len();
        if size < 8 || self.pos > size - 8 {
            return Err(self.error("truncated fixed64"));
        }
        let ghost eight = self.bytes@.subrange(self.pos as int, self.pos + 8);
        let mut value: u64 = 0;
        let mut i: usize = 8;
        let mut room: u64 = 1;
        assert(eight.skip(8) =~= Seq::empty());
        while i > 0
            invariant
                i <= 8,
                self.pos + 8 <= self.bytes@.len() <= usize::MAX,
                eight == self.bytes@.subrange(self.pos as int, self.pos + 8),
                value == le_value(eight.skip(i as int)),
                i > 0 ==> value < room,
                i == 8 ==> room == 1,
                i == 7 ==> room == 0x100,
                i == 6 ==> room == 0x1_0000,
                i == 5 ==> room == 0x100_0000,
                i == 4 ==> room == 0x1_0000_0000,
                i == 3 ==> room == 0x100_0000_0000,
                i == 2 ==> room == 0x1_0000_0000_0000,
                i == 1 ==> room == 0x100_0000_0000_0000,
            decreases i,
        {
            proof {
                let rest = eight.skip(i - 1);
                assert(rest.drop_first() =~= eight.skip(i as int));
                assert(rest[0] == self.bytes@[self.pos + i - 1]);
            }
            value = value * 256 + self.bytes[self.pos + i - 1] as u64;
            if i > 1 {
                room = room * 256;
            }
            i = i - 1;
        }
        assert(eight.skip(0) =~= eight);
        self.pos = self.pos + 8;
        Ok(value)
    }

    /// Reads a double, as its bits.
    pub fn double(&mut self) -> (r: Result<u64, Error>)
        ensures
            reads(old(self)@, final(self)@, r, fixed64_at(old(self)@.bytes, old(self)@.pos)),
    {
        self.fixed64()
    }

    /// Reads length-delimited bytes.
    pub fn bytes(&mut self) -> (r: Result<&'a [u8], Error>)
        ensures
            reads_view(old(self)@, final(self)@, r, bytes_at(old(self)@.bytes, old(self)@.pos)),
    {
        proof {
            lemma_varint_from(self.bytes@, self.pos as int, 0, 1, 0);
        }
        let len: u64 = match self.varint() {
            Ok(len) => len,
            Err(error) => {
                return Err(error);
            },
        };
        if len > usize::MAX as u64 {
            return Err(
                self.error("length-delimited field is longer than this platform allows"),
            );
        }
        let size: usize = self.bytes.len();
        if len as usize > size - self.pos {
            return Err(self.error("truncated length-delimited field"));
        }
        let end: usize = self.pos + len as usize;
        let slice: &'a [u8] = vstd::slice::slice_subrange(self.bytes, self.pos, end);
        self.pos = end;
        Ok(slice)
    }

    /// Reads a text.
    pub fn string(&mut self) -> (r: Result<&'a str, Error>)
        ensures
            reads_view(old(self)@, final(self)@, r, string_at(old(self)@.bytes, old(self)@.pos)),
    {
        let bytes: &'a [u8] = match self.bytes() {
            Ok(bytes) => bytes,
            Err(error) => {
                return Err(error);
            },
        };
        match utf8_text(bytes) {
            Some(text) => Ok(text),
            None => Err(self.error("string field is not valid UTF-8")),
        }
    }

    /// Reads a nested message, as its own reader.
    pub fn message(&mut self) -> (r: Result<Reader<'a>, Error>)
        ensures
            final(self)@.bytes == old(self)@.bytes,
            match bytes_at(old(self)@.bytes, old(self)@.pos) {
                Ok((bytes, end)) => r is Ok && r->Ok_0@ == (ReaderView { bytes, pos: 0 })
                    && final(self)@.pos == end,
                Err((message, position)) => r is Err && r->Err_0@ == wire_fault(
                    message,
                    position,
                ) && final(self)@.pos == position,
            },
    {
        match self.bytes() {
            Ok(bytes) => Ok(Reader::new(bytes)),
            Err(error) => Err(error),
        }
    }

    /// Skips the value of a field that is not known.
    pub fn skip(&mut self, wire: WireType) -> (r: Result<(), Error>)
        ensures
            reads(old(self)@, final(self)@, r, skip_at(old(self)@.bytes, old(self)@.pos, wire)),
    {
        match wire {
            WireType::Varint => match self.varint() {
                Ok(_) => Ok(()),
                Err(error) => Err(error),
            },
            WireType::Fixed64 => match self.fixed64() {
                Ok(_) => Ok(()),
                Err(error) => Err(error),
            },
            WireType::Fixed32 => {
                let size: usize = self.bytes.len();
                if size < 4 || self.pos > size - 4 {
                    return Err(self.error("truncated fixed32"));
                }
                self.pos = self.pos + 4;
                Ok(())
            },
            WireType::LengthDelimited => match self.bytes() {
                Ok(_) => Ok(()),
                Err(error) => Err(error),
            },
            WireType::StartGroup | WireType::EndGroup => Err(
                self.error("protobuf group encoding is not supported"),
            ),
        }
    }

    /// Reads a whole field: its number and its value.
    pub fn field(&mut self) -> (r: Result<Option<(u32, Payload<&'a [u8]>)>, Error>)
        ensures
            final(self)@.bytes == old(self)@.bytes,
            match field_at(old(self)@.bytes, old(self)@.pos) {
                Ok((None, end)) => r is Ok && r->Ok_0 is None && final(self)@.pos == end,
                Ok((Some((number, payload)), end)) => r is Ok && r->Ok_0 is Some
                    && r->Ok_0->Some_0.0 == number && payload_view(r->Ok_0->Some_0.1) == payload
                    && final(self)@.pos == end && old(self)@.pos < end <= old(self)@.bytes.len(),
                Err((message, position)) => r is Err && r->Err_0@ == wire_fault(message, position),
            },
    {
        proof {
            lemma_field_at(self@.bytes, self@.pos);
        }
        let key: (u32, WireType) = match self.next_field() {
            Ok(Some(key)) => key,
            Ok(None) => {
                return Ok(None);
            },
            Err(error) => {
                return Err(error);
            },
        };
        match key.1 {
            WireType::Varint => match self.varint() {
                Ok(value) => Ok(Some((key.0, Payload::Varint(value)))),
                Err(error) => Err(error),
            },
            WireType::Fixed64 => match self.fixed64() {
                Ok(value) => Ok(Some((key.0, Payload::Fixed64(value)))),
                Err(error) => Err(error),
            },
            WireType::LengthDelimited => match self.bytes() {
                Ok(bytes) => Ok(Some((key.0, Payload::Bytes(bytes)))),
                Err(error) => Err(error),
            },
            wire => match self.skip(wire) {
                Ok(_) => Ok(Some((key.0, Payload::Fixed32))),
                Err(error) => Err(error),
            },
        }
    }
}

/// The weight of a varint's byte by its place.
pub open spec fn scale_of(groups: int) -> int
    decreases groups,
{
    if groups <= 0 {
        1
    } else {
        128 * scale_of(groups - 1)
    }
}

proof fn lemma_scale(groups: int)
    requires
        0 <= groups <= 8,
    ensures
        scale_of(groups + 1) == 128 * scale_of(groups),
        groups < 7 ==> scale_of(groups + 1) <= 0x2_0000_0000_0000,
        groups == 7 ==> scale_of(groups + 1) == 0x0100_0000_0000_0000,
        groups == 8 ==> scale_of(groups + 1) == 0x8000_0000_0000_0000,
{
    reveal_with_fuel(scale_of, 11);
}

} // verus!
