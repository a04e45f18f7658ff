//! `Content-Encoding` on an ingest request body.
//!
//! Decompression is bounded, always: every decoder is read to one byte past the limit at
//! most, and no buffer is sized from a length that the sender chose.
use std::borrow::Cow;
use std::io::Read;
use vstd::prelude::*;

use crate::double::exponent;
use crate::error::{refused, Error, Failure, Fault};
use crate::text::{
    decimal, decimal_text, lower, pieces, same_ignoring_case, split, trim, trimmed, views,
};

verus! {

// ---------------------------------------------------------------------------
// Codings
// ---------------------------------------------------------------------------

/// A content coding that can be undone.
#[derive(Debug, Clone, Copy, PartialEq, Eq, Structural)]
pub enum Encoding {
    /// No coding applied: an absent header, or an explicit `identity`.
    Identity,
    Gzip,
    Deflate,
    Zstd,
}

/// The coding that a token of the header names, whatever its case.
pub open spec fn coding_named(token: Seq<char>) -> Option<Encoding> {
    let word = lower(token);
    if word == lower("gzip"@) || word == lower("x-gzip"@) {
        Some(Encoding::Gzip)
    } else if word == lower("deflate"@) {
        Some(Encoding::Deflate)
    } else if word == lower("zstd"@) {
        Some(Encoding::Zstd)
    } else {
        None
    }
}

/// Whether a token asks for nothing to be undone: it is empty, `identity`, or a coding
/// that the caller undoes itself.
pub open spec fn passes(token: Seq<char>, handled: Seq<Seq<char>>) -> bool {
    token.len() == 0 || lower(token) == lower("identity"@) || exists|i: int|
        0 <= i < handled.len() && lower(token) == lower(#[trigger] handled[i])
}

pub open spec fn unknown_coding(token: Seq<char>) -> Fault {
    Failure::Unsupported {
        feature: "Content-Encoding: "@ + token,
        hint: Some("send the body uncompressed, or compress it with gzip, deflate or zstd"@),
    }
}

pub open spec fn layered(value: Seq<char>) -> Fault {
    Failure::Unsupported {
        feature: "layered Content-Encoding: "@ + trim(value),
        hint: Some("apply a single content coding to the request body"@),
    }
}

/// The coding that the tokens of a header `value` name, with `sofar` from those before.
/// One coding is undone; two stacked ones are refused by name.
pub open spec fn coding_of(
    tokens: Seq<Seq<char>>,
    handled: Seq<Seq<char>>,
    value: Seq<char>,
    sofar: Encoding,
) -> Result<Encoding, Fault>
    decreases tokens.len(),
{
    if tokens.len() == 0 {
        Ok(sofar)
    } else {
        let token = trim(tokens[0]);
        if passes(token, handled) {
            coding_of(tokens.drop_first(), handled, value, sofar)
        } else {
            match coding_named(token) {
                None => Err(unknown_coding(token)),
                Some(coding) => if sofar != Encoding::Identity {
                    Err(layered(value))
                } else {
                    coding_of(tokens.drop_first(), handled, value, coding)
                },
            }
        }
    }
}

/// Codings that the `remote_write` route undoes itself.
pub fn remote_write_passthrough() -> (codings: Vec<&'static str>)
    ensures
        views(codings@) == seq!["snappy"@, "x-snappy-framed"@],
{
    let mut codings: Vec<&'static str> = Vec::new();
    codings.push("snappy");
    codings.push("x-snappy-framed");
    assert(views(codings@) =~= seq!["snappy"@, "x-snappy-framed"@]);
    codings
}

impl Encoding {
    /// Parses a `Content-Encoding` header value. `already_handled` names codings that the
    /// caller undoes itself.
    pub fn parse(value: &str, already_handled: &[&str]) -> (r: Result<Encoding, Error>)
        ensures
            coding_of(
                pieces(value@, ','),
                views(already_handled@),
                value@,
                Encoding::Identity,
            ) == (match r {
                Ok(coding) => Ok::<Encoding, Fault>(coding),
                Err(error) => Err(error@),
            }),
    {
        let tokens: Vec<String> = split(value, ',');
        let ghost all = views(tokens@);
        let ghost handled = views(already_handled@);
        let mut coding: Encoding = Encoding::Identity;
        let mut i: usize = 0;
        assert(all.skip(0) =~= all);
        while i < tokens.len()
            invariant
                i <= tokens@.len(),
                all == views(tokens@),
                all == pieces(value@, ','),
                handled == views(already_handled@),
                coding_of(all, handled, value@, Encoding::Identity) == coding_of(
                    all.skip(i as int),
                    handled,
                    value@,
                    coding,
                ),
            decreases tokens@.len() - i,
        {
            proof {
                assert(all.skip(i as int)[0] == tokens@[i as int]@);
                assert(all.skip(i as int).drop_first() =~= all.skip(i as int + 1));
            }
            let token: String = trimmed(tokens[i].as_str());
            let token: &str = token.as_str();
            i += 1;
            if token.is_empty() || same_ignoring_case(token, "identity") || is_handled(
                token,
                already_handled,
            ) {
                continue;
            }
            let parsed: Encoding = if same_ignoring_case(token, "gzip") || same_ignoring_case(
                token,
                "x-gzip",
            ) {
                Encoding::Gzip
            } else if same_ignoring_case(token, "deflate") {
                Encoding::Deflate
            } else if same_ignoring_case(token, "zstd") {
                Encoding::Zstd
            } else {
                let mut feature: String = "Content-Encoding: ".to_owned();
                feature.append(token);
                return Err(
                    Error::unsupported_with_hint(
                        feature,
                        "send the body uncompressed, or compress it with gzip, deflate or zstd",
                    ),
                );
            };
            if coding != Encoding::Identity {
                let mut feature: String = "layered Content-Encoding: ".to_owned();
                feature.append(trimmed(value).as_str());
                return Err(
                    Error::unsupported_with_hint(
                        feature,
                        "apply a single content coding to the request body",
                    ),
                );
            }
            coding = parsed;
        }
        Ok(coding)
    }

    pub open spec fn token(self) -> Seq<char> {
        match self {
            Encoding::Identity => "identity"@,
            Encoding::Gzip => "gzip"@,
            Encoding::Deflate => "deflate"@,
            Encoding::Zstd => "zstd"@,
        }
    }

    /// The header token.
    pub fn as_str(self) -> (token: &'static str)
        ensures
            token@ == self.token(),
    {
        match self {
            Encoding::Identity => "identity",
            Encoding::Gzip => "gzip",
            Encoding::Deflate => "deflate",
            Encoding::Zstd => "zstd",
        }
    }
}

fn is_handled(token: &str, already_handled: &[&str]) -> (r: bool)
    ensures
        r == exists|i: int|
            0 <= i < already_handled@.len() && lower(token@) == lower(
                #[trigger] views(already_handled@)[i],
            ),
{
    let mut i: usize = 0;
    while i < already_handled.len()
        invariant
            i <= already_handled@.len(),
            forall|j: int|
                0 <= j < i ==> lower(token@) != lower(#[trigger] views(already_handled@)[j]),
        decreases already_handled@.len() - i,
    {
        assert(views(already_handled@)[i as int] == already_handled@[i as int]@);
        if same_ignoring_case(token, already_handled[i]) {
            return true;
        }
        i += 1;
    }
    false
}

// ---------------------------------------------------------------------------
// Decoders
// ---------------------------------------------------------------------------

/// What reading a decoder gives: the bytes, or the text of its error.
pub type Inflated = Result<Seq<u8>, Seq<char>>;

pub open spec fn inflated(r: Result<Vec<u8>, String>) -> Inflated {
    match r {
        Ok(bytes) => Ok(bytes@),
        Err(message) => Err(message@),
    }
}

/// What `flate2::read::MultiGzDecoder` gives for a body, read up to `ceiling` bytes.
pub uninterp spec fn gzip_read(body: Seq<u8>, ceiling: u64) -> Inflated;

/// `flate2::read::MultiGzDecoder` over `body`, read to its end or to `ceiling` bytes:
/// every gzip member one behind the other. The answer depends on the body and the ceiling
/// alone, and `Read::take` hands out no more than the ceiling.
#[verifier::external_body]
pub(crate) fn read_gzip(body: &[u8], ceiling: u64) -> (r: Result<Vec<u8>, String>)
    ensures
        inflated(r) == gzip_read(body@, ceiling),
        r is Ok ==> r->Ok_0@.len() <= ceiling,
{
    let mut out = Vec::new();
    let mut reader = flate2::read::MultiGzDecoder::new(body).take(ceiling);
    reader.read_to_end(&mut out).map(|_| out).map_err(|error| error.to_string())
}

/// What `flate2::read::ZlibDecoder` gives for a body, read up to `ceiling` bytes.
pub uninterp spec fn zlib_read(body: Seq<u8>, ceiling: u64) -> Inflated;

/// `flate2::read::ZlibDecoder` over `body`, read to its end or to `ceiling` bytes. The
/// answer depends on the body and the ceiling alone, and `Read::take` hands out no more
/// than the ceiling.
#[verifier::external_body]
pub(crate) fn read_zlib(body: &[u8], ceiling: u64) -> (r: Result<Vec<u8>, String>)
    ensures
        inflated(r) == zlib_read(body@, ceiling),
        r is Ok ==> r->Ok_0@.len() <= ceiling,
{
    let mut out = Vec::new();
    let mut reader = flate2::read::ZlibDecoder::new(body).take(ceiling);
    reader.read_to_end(&mut out).map(|_| out).map_err(|error| error.to_string())
}

/// What `flate2::read::DeflateDecoder` gives for a body, read up to `ceiling` bytes.
pub uninterp spec fn deflate_read(body: Seq<u8>, ceiling: u64) -> Inflated;

/// `flate2::read::DeflateDecoder` over `body`, read to its end or to `ceiling` bytes. The
/// answer depends on the body and the ceiling alone, and `Read::take` hands out no more
/// than the ceiling.
#[verifier::external_body]
pub(crate) fn read_deflate(body: &[u8], ceiling: u64) -> (r: Result<Vec<u8>, String>)
    ensures
        inflated(r) == deflate_read(body@, ceiling),
        r is Ok ==> r->Ok_0@.len() <= ceiling,
{
    let mut out = Vec::new();
    let mut reader = flate2::read::DeflateDecoder::new(body).take(ceiling);
    reader.read_to_end(&mut out).map(|_| out).map_err(|error| error.to_string())
}

/// What `zstd::stream::read::Decoder` gives for a body, with its window held to
/// `window_log`, read up to `ceiling` bytes.
pub uninterp spec fn zstd_read(body: Seq<u8>, window_log: u32, ceiling: u64) -> Inflated;

/// `zstd::stream::read::Decoder` over `body`, with `window_log_max(window_log)`, read to
/// its end or to `ceiling` bytes. The answer depends on the three arguments alone, and
/// `Read::take` hands out no more than the ceiling.
#[verifier::external_body]
pub(crate) fn read_zstd(body: &[u8], window_log: u32, ceiling: u64) -> (r: Result<Vec<u8>, String>)
    ensures
        inflated(r) == zstd_read(body@, window_log, ceiling),
        r is Ok ==> r->Ok_0@.len() <= ceiling,
{
    let mut out = Vec::new();
    let mut reader = zstd::stream::read::Decoder::new(body).map_err(|error| error.to_string())?;
    reader.window_log_max(window_log).map_err(|error| error.to_string())?;
    reader.take(ceiling).read_to_end(&mut out).map(|_| out).map_err(|error| error.to_string())
}

// ---------------------------------------------------------------------------
// Bodies
// ---------------------------------------------------------------------------

/// One byte more than a body may expand to.
pub open spec fn ceiling_of(max_bytes: usize) -> u64 {
    if max_bytes == u64::MAX {
        u64::MAX
    } else {
        (max_bytes + 1) as u64
    }
}

pub open spec fn malformed(coding: Seq<char>, detail: Seq<char>) -> Fault {
    refused(
        "the request body is not valid "@ + coding + " (Content-Encoding says it is): "@ + detail,
    )
}

pub open spec fn too_large(coding: Seq<char>, max_bytes: usize, received: nat) -> Fault {
    Failure::LimitExceeded {
        limit: "server.max_body_bytes"@,
        detail: "the "@ + coding + " request body expands past the "@ + decimal(max_bytes as nat)
            + " byte limit ("@ + decimal(received) + " compressed bytes received)"@,
    }
}

/// The body that reading a decoder gave, refused where it is malformed or goes past the
/// limit.
pub open spec fn settled(read: Inflated, received: nat, max_bytes: usize, coding: Seq<char>) -> Result<
    Seq<u8>,
    Fault,
> {
    match read {
        Err(message) => Err(malformed(coding, message)),
        Ok(bytes) => if bytes.len() > max_bytes {
            Err(too_large(coding, max_bytes, received))
        } else {
            Ok(bytes)
        },
    }
}

/// The bytes of a body as contracts speak of them.
pub open spec fn body_of(r: Result<Vec<u8>, Error>) -> Result<Seq<u8>, Fault> {
    match r {
        Ok(bytes) => Ok(bytes@),
        Err(error) => Err(error@),
    }
}

/// The body that reading a decoder gave.
pub fn settle(read: Result<Vec<u8>, String>, received: usize, max_bytes: usize, coding: &str) -> (r:
    Result<Vec<u8>, Error>)
    ensures
        body_of(r) == settled(inflated(read), received as nat, max_bytes, coding@),
{
    match read {
        Err(message) => {
            let mut text: String = "the request body is not valid ".to_owned();
            text.append(coding);
            text.append(" (Content-Encoding says it is): ");
            text.append(message.as_str());
            Err(Failure::BadRequest(text))
        },
        Ok(bytes) => {
            if bytes.len() > max_bytes {
                let mut detail: String = "the ".to_owned();
                detail.append(coding);
                detail.append(" request body expands past the ");
                detail.append(decimal_text(max_bytes as u64).as_str());
                detail.append(" byte limit (");
                detail.append(decimal_text(received as u64).as_str());
                detail.append(" compressed bytes received)");
                Err(Failure::LimitExceeded { limit: "server.max_body_bytes".to_owned(), detail })
            } else {
                Ok(bytes)
            }
        },
    }
}

/// A deflated body, from what the two readings of it gave. The header says zlib; enough
/// clients send a bare stream that a malformed one is read again as such. A body past the
/// limit is past it either way, and the first error is the one reported.
pub open spec fn deflated(zlib: Result<Seq<u8>, Fault>, raw: Result<Seq<u8>, Fault>) -> Result<
    Seq<u8>,
    Fault,
> {
    match zlib {
        Ok(bytes) => Ok(bytes),
        Err(zlib_fault) => if zlib_fault is LimitExceeded {
            Err(zlib_fault)
        } else {
            match raw {
                Ok(bytes) => Ok(bytes),
                Err(raw_fault) => if raw_fault is LimitExceeded {
                    Err(raw_fault)
                } else {
                    Err(zlib_fault)
                },
            }
        },
    }
}

fn deflate(body: &[u8], max_bytes: usize) -> (r: Result<Vec<u8>, Error>)
    ensures
        body_of(r) == deflated(
            settled(
                zlib_read(body@, ceiling_of(max_bytes)),
                body@.len(),
                max_bytes,
                "deflate"@,
            ),
            settled(
                deflate_read(body@, ceiling_of(max_bytes)),
                body@.len(),
                max_bytes,
                "deflate"@,
            ),
        ),
{
    let ceiling: u64 = (max_bytes as u64).saturating_add(1);
    let zlib_error: Error = match settle(
        read_zlib(body, ceiling),
        body.len(),
        max_bytes,
        "deflate",
    ) {
        Ok(bytes) => {
            return Ok(bytes);
        },
        Err(error) => error,
    };
    match zlib_error {
        Failure::LimitExceeded { limit: _, detail: _ } => {
            return Err(zlib_error);
        },
        _ => {},
    }
    match settle(read_deflate(body, ceiling), body.len(), max_bytes, "deflate") {
        Ok(bytes) => Ok(bytes),
        Err(raw_error) => match raw_error {
            Failure::LimitExceeded { limit: _, detail: _ } => Err(raw_error),
            _ => Err(zlib_error),
        },
    }
}

/// The window that a zstd frame may ask for, as a power of two: no frame whose output
/// fits needs more than the limit, held between the smallest legal window and the
/// decoder's own limit.
pub open spec fn window_log_of(max_bytes: usize) -> u32 {
    let log = exponent(
        if max_bytes == 0 {
            1
        } else {
            max_bytes as nat
        },
    ) + 1;
    if log < 10 {
        10
    } else if log > 27 {
        27
    } else {
        log as u32
    }
}

fn window_log(max_bytes: usize) -> (log: u32)
    ensures
        log == window_log_of(max_bytes),
{
    let mut rest: usize = if max_bytes == 0 {
        1
    } else {
        max_bytes
    };
    let ghost n = rest as nat;
    let mut log: u32 = 0;
    while rest >= 2 && log < 27
        invariant
            log <= 27,
            exponent(n) == log + exponent(rest as nat),
        decreases rest,
    {
        rest = rest / 2;
        log += 1;
    }
    if log < 9 {
        10
    } else if log >= 27 {
        27
    } else {
        log + 1
    }
}

/// What undoing a coding gives.
pub open spec fn decoded(encoding: Encoding, body: Seq<u8>, max_bytes: usize) -> Result<
    Seq<u8>,
    Fault,
> {
    let ceiling = ceiling_of(max_bytes);
    match encoding {
        Encoding::Identity => Ok(body),
        Encoding::Gzip => settled(gzip_read(body, ceiling), body.len(), max_bytes, "gzip"@),
        Encoding::Deflate => deflated(
            settled(zlib_read(body, ceiling), body.len(), max_bytes, "deflate"@),
            settled(deflate_read(body, ceiling), body.len(), max_bytes, "deflate"@),
        ),
        Encoding::Zstd => settled(
            zstd_read(body, window_log_of(max_bytes), ceiling),
            body.len(),
            max_bytes,
            "zstd"@,
        ),
    }
}

/// Undoes `encoding`, refusing anything that expands past `max_bytes`. `Identity` borrows
/// the body.
pub fn decode<'a>(encoding: Encoding, body: &'a [u8], max_bytes: usize) -> (r: Result<
    Cow<'a, [u8]>,
    Error,
>)
    ensures
        decoded(encoding, body@, max_bytes) == (match r {
            Ok(bytes) => Ok::<Seq<u8>, Fault>(bytes@),
            Err(error) => Err(error@),
        }),
        r is Ok ==> (encoding == Encoding::Identity <==> r->Ok_0 is Borrowed),
{
    let ceiling: u64 = (max_bytes as u64).saturating_add(1);
    let owned: Result<Vec<u8>, Error> = match encoding {
        Encoding::Identity => {
            return Ok(Cow::Borrowed(body));
        },
        Encoding::Gzip => settle(read_gzip(body, ceiling), body.len(), max_bytes, "gzip"),
        Encoding::Deflate => deflate(body, max_bytes),
        Encoding::Zstd => settle(
            read_zstd(body, window_log(max_bytes), ceiling),
            body.len(),
            max_bytes,
            "zstd",
        ),
    };
    match owned {
        Ok(bytes) => Ok(Cow::Owned(bytes)),
        Err(error) => Err(error),
    }
}

// ---------------------------------------------------------------------------
// Laws
// ---------------------------------------------------------------------------

/// Whatever the coding and whatever was sent, an undone body takes no more than the
/// limit; a body without a coding is handed on untouched.
pub proof fn law_decompression_is_bounded(encoding: Encoding, body: Seq<u8>, max_bytes: usize)
    ensures
        encoding == Encoding::Identity ==> decoded(encoding, body, max_bytes) == Ok::<
            Seq<u8>,
            Fault,
        >(body),
        encoding != Encoding::Identity ==> match decoded(encoding, body, max_bytes) {
            Ok(bytes) => bytes.len() <= max_bytes,
            Err(fault) => fault is BadRequest || fault is LimitExceeded,
        },
{
}

/// The token of a coding is read back as that coding.
pub proof fn law_tokens_are_read_back(encoding: Encoding)
    requires
        encoding != Encoding::Identity,
    ensures
        coding_named(encoding.token()) == Some(encoding),
{
    reveal_strlit("gzip");
    reveal_strlit("x-gzip");
    reveal_strlit("deflate");
    reveal_strlit("zstd");
    assert(lower("gzip"@).len() == 4 && lower("x-gzip"@).len() == 6);
    assert(lower("deflate"@).len() == 7 && lower("zstd"@).len() == 4);
    assert(lower("gzip"@)[0] == 'g' && lower("zstd"@)[0] == 'z');
}

} // verus!
