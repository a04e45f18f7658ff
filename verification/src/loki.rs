//! The Loki-compatible query API.
//!
//! Response shapes match what Loki emits, down to timestamps as texts of nanoseconds.
use vstd::prelude::*;

use crate::civil::{days_of, days_since_epoch};
use crate::error::{outcome, refused, Error, Failure, Fault};
use crate::grouping::{
    chosen, label_views, lemma_sorted_groups, numbers, order, ordered, places, sort_groups,
    sorted_groups, sound_groups,
};
use crate::labels::{law_merge_then_get, lookup, merged, sorted, Labels, Pair};
use crate::lexer::{run, run_end, saturated, tokenize, tokenized, Class, Lexeme, Spanned};
use crate::logql::{
    extracts, is_parser, law_extracted_fields_are_labels, law_only_parsers_extract, log_query,
    passes, LogQuery, LogQueryView, StageView,
};
use crate::matcher::{LabelMatcher, MatcherView};
use crate::meta::{
    accepted_streams, all_names, all_values, distinct, matcher_sets, names_of, series_of, values_of,
};
use crate::otlp_encode::log_streams;
use crate::record::{LogRecord, LogView};
use crate::seconds::{head, minus, read, read_number, Reading, ReadingView, NANOS_PER_SECOND};
use crate::text::{
    all_digits, chars_of, debug_text, decimal, decimal_text, find_char, find_from, is_digit,
    option_view, parse_digits, parse_signed, parse_unsigned, piece, pieces, quoted, read_signed,
    read_unsigned, same, split, trim, trimmed, views,
};
use crate::textset::sorted_set;

verus! {

/// Default entry limit.
pub const DEFAULT_LIMIT: usize = 100;

/// Ceiling on `limit`, so that one query cannot ask for the whole store.
pub const MAX_LIMIT: usize = 5_000;

/// Default lookback, in nanoseconds: six hours.
pub const DEFAULT_WINDOW: u64 = 21_600_000_000_000;

#[derive(Debug, Clone, Copy, PartialEq, Eq, Structural)]
pub enum Direction {
    /// Newest first, which is what a log viewer wants.
    Backward,
    Forward,
}

impl Default for Direction {
    fn default() -> (direction: Direction)
        ensures
            direction == Direction::Backward,
    {
        Direction::Backward
    }
}

// ---------------------------------------------------------------------------
// Timestamps
// ---------------------------------------------------------------------------

/// What a bare whole number means as a time, by its magnitude: seconds, milliseconds,
/// microseconds and nanoseconds do not overlap for any date between 2001 and 2100.
pub open spec fn scaled_time(value: u64) -> u64 {
    if value >= 978_307_200_000_000_000 {
        value
    } else if value >= 978_307_200_000_000 {
        saturated((value * 1_000) as nat)
    } else if value >= 978_307_200_000 {
        saturated((value * 1_000_000) as nat)
    } else if 978_307_200 <= value < 4_102_444_800 {
        (value * 1_000_000_000) as u64
    } else {
        value
    }
}

/// Interprets a bare whole number as a time, by its magnitude.
pub fn scale_to_nanos(value: u64) -> (nanos: u64)
    ensures
        nanos == scaled_time(value),
{
    if value >= 978_307_200_000_000_000 {
        value
    } else if value >= 978_307_200_000_000 {
        match value.checked_mul(1_000) {
            Some(nanos) => nanos,
            None => u64::MAX,
        }
    } else if value >= 978_307_200_000 {
        match value.checked_mul(1_000_000) {
            Some(nanos) => nanos,
            None => u64::MAX,
        }
    } else if 978_307_200 <= value && value < 4_102_444_800 {
        value * 1_000_000_000
    } else {
        value
    }
}

/// A text without the `Z`s at its end.
pub open spec fn without_zulu(s: Seq<char>) -> Seq<char>
    decreases s.len(),
{
    if s.len() > 0 && s.last() == 'Z' {
        without_zulu(s.drop_last())
    } else {
        s
    }
}

/// Where `c` last stands before `n`; nothing where it does not.
pub open spec fn last_before(s: Seq<char>, c: char, n: int) -> Option<int>
    decreases n,
{
    if n <= 0 || n > s.len() {
        None
    } else if s[n - 1] == c {
        Some(n - 1)
    } else {
        last_before(s, c, n - 1)
    }
}

/// Where the offset of a clock time starts: at its `+`, or else at its last `-`.
pub open spec fn offset_at(clock: Seq<char>) -> Option<int> {
    let plus = find_from(clock, '+', 0);
    if plus < clock.len() {
        Some(plus)
    } else {
        match last_before(clock, '-', clock.len() as int) {
            Some(at) => if at > 0 {
                Some(at)
            } else {
                None
            },
            None => None,
        }
    }
}

/// The spellings of no offset from UTC, behind their sign.
pub open spec fn is_utc(offset: Seq<char>) -> bool {
    offset == "00:00"@ || offset == "0000"@ || offset == "00"@
}

/// The clock time of what follows the `T`, without its zone; nothing where the zone is not
/// UTC.
pub open spec fn clock_text(rest: Seq<char>) -> Option<Seq<char>> {
    let clock = without_zulu(rest);
    match offset_at(clock) {
        None => Some(clock),
        Some(at) => if is_utc(clock.skip(at + 1)) {
            Some(clock.take(at))
        } else {
            None
        },
    }
}

/// The first nine digits of a fraction of a second, as nanoseconds.
pub open spec fn fraction_nanos(fraction: Seq<char>) -> nat {
    head(fraction.take(run(fraction, 0, Class::Digit)), 9)
}

/// The `n`-th piece as a signed number.
pub open spec fn number_at(parts: Seq<Seq<char>>, n: int) -> Option<int> {
    if n < parts.len() {
        parse_signed(parts[n])
    } else {
        None
    }
}

/// The seconds of a piece that may be left out.
pub open spec fn second_at(parts: Seq<Seq<char>>) -> Option<int> {
    if parts.len() > 2 {
        parse_signed(parts[2])
    } else {
        Some(0)
    }
}

pub open spec fn not_a_time(raw: Seq<char>) -> Fault {
    refused(debug_text(raw) + " is not a valid RFC3339 timestamp"@)
}

pub open spec fn before_epoch(raw: Seq<char>) -> Fault {
    refused(debug_text(raw) + " is before the unix epoch, which telemetryd does not store"@)
}

/// The time of a date and a clock time in nanoseconds, refused where it is before the
/// epoch or past what can be counted.
pub open spec fn civil_time(raw: Seq<char>, seconds: int, nanos: nat) -> Result<u64, Fault> {
    if seconds < 0 {
        Err(before_epoch(raw))
    } else if seconds * 1_000_000_000 + nanos > u64::MAX {
        Err(not_a_time(raw))
    } else {
        Ok((seconds * 1_000_000_000 + nanos) as u64)
    }
}

/// The time of a date at a clock time.
pub open spec fn clock_time(
    raw: Seq<char>,
    year: int,
    month: int,
    day: int,
    clock: Seq<char>,
) -> Result<u64, Fault> {
    let dot = find_from(clock, '.', 0);
    let parts = pieces(clock.take(dot), ':');
    let fraction = if dot < clock.len() {
        clock.skip(dot + 1)
    } else {
        Seq::empty()
    };
    match (number_at(parts, 0), number_at(parts, 1), second_at(parts)) {
        (Some(hour), Some(minute), Some(second)) => civil_time(
            raw,
            days_since_epoch(year, month, day) * 86_400 + hour * 3_600 + minute * 60 + second,
            fraction_nanos(fraction),
        ),
        _ => Err(not_a_time(raw)),
    }
}

/// The time that an RFC3339 text writes. Only UTC is understood: a time with another offset
/// is refused rather than taken for another instant.
pub open spec fn rfc3339_time(raw: Seq<char>) -> Result<u64, Fault> {
    let t = find_from(raw, 'T', 0);
    let date = pieces(raw.take(t), '-');
    if t >= raw.len() {
        Err(not_a_time(raw))
    } else {
        match (number_at(date, 0), number_at(date, 1), number_at(date, 2)) {
            (Some(year), Some(month), Some(day)) => if !(1 <= month <= 12) || !(1 <= day <= 31) {
                Err(not_a_time(raw))
            } else {
                match clock_text(raw.skip(t + 1)) {
                    Some(clock) => clock_time(raw, year, month, day, clock),
                    None => Err(not_a_time(raw)),
                }
            },
            _ => Err(not_a_time(raw)),
        }
    }
}

/// The time that a Loki timestamp writes: a whole number in a unit told by its magnitude,
/// a decimal number of seconds, or RFC3339.
pub open spec fn loki_time(raw: Seq<char>) -> Result<u64, Fault> {
    let text = trim(raw);
    if text.len() == 0 {
        Err(refused("empty timestamp"@))
    } else if all_digits(text) {
        match parse_digits(text, u64::MAX as nat) {
            Some(value) => Ok(scaled_time(value as u64)),
            None => Err(refused("timestamp "@ + debug_text(text) + " is out of range"@)),
        }
    } else {
        match seconds_time(text) {
            Some(nanos) => Ok(nanos),
            None => rfc3339_time(text),
        }
    }
}

/// The nanoseconds of a decimal number of seconds, where it is one and not negative.
pub open spec fn seconds_time(text: Seq<char>) -> Option<u64> {
    match read_number(text) {
        Some(ReadingView::Number(decimal)) => if decimal.countable() {
            Some(decimal.times(NANOS_PER_SECOND as nat))
        } else {
            None
        },
        _ => None,
    }
}

/// A time as contracts speak of it.
pub open spec fn time_outcome(r: Result<u64, Error>) -> Result<u64, Fault> {
    match r {
        Ok(nanos) => Ok(nanos),
        Err(error) => Err(error@),
    }
}

/// The nanoseconds of a decimal number of seconds, where it is one and not negative.
pub fn read_seconds(text: &str) -> (nanos: Option<u64>)
    ensures
        nanos == seconds_time(text@),
{
    match read(text) {
        Some(Reading::Number(decimal)) => if decimal.countable() {
            Some(decimal.times(NANOS_PER_SECOND))
        } else {
            None
        },
        _ => None,
    }
}

fn message_about(raw: &str, rest: &str) -> (error: Error)
    ensures
        error@ == refused(debug_text(raw@) + rest@),
{
    let mut text: String = quoted(raw);
    text.append(rest);
    Failure::BadRequest(text)
}

/// Parses a Loki timestamp.
pub fn parse_time(raw: &str) -> (r: Result<u64, Error>)
    ensures
        time_outcome(r) == loki_time(raw@),
{
    let text: String = trimmed(raw);
    let text: &str = text.as_str();
    if text.is_empty() {
        return Err(Failure::BadRequest("empty timestamp".to_owned()));
    }
    let chars: Vec<char> = chars_of(text);
    if run_end(chars.as_slice(), 0, Class::Digit) == chars.len() {
        proof {
            crate::lexer::lemma_run(chars@, 0, Class::Digit);
        }
        assert(all_digits(text@));
        assert(text@[0] != '+');
        return match read_unsigned(text, u64::MAX) {
            Some(value) => Ok(scale_to_nanos(value)),
            None => {
                let mut message: String = "timestamp ".to_owned();
                message.append(quoted(text).as_str());
                message.append(" is out of range");
                Err(Failure::BadRequest(message))
            },
        };
    }
    proof {
        if all_digits(text@) {
            lemma_all_digits_run(text@, 0);
        }
    }
    match read_seconds(text) {
        Some(nanos) => Ok(nanos),
        None => parse_rfc3339(text),
    }
}

proof fn lemma_all_digits_run(s: Seq<char>, i: int)
    requires
        all_digits(s),
        0 <= i <= s.len(),
    ensures
        run(s, i, Class::Digit) == s.len(),
    decreases s.len() - i,
{
    if i < s.len() {
        assert(is_digit(s[i]));
        lemma_all_digits_run(s, i + 1);
    }
}

fn clock_of(rest: &str) -> (clock: Option<String>)
    ensures
        option_view(clock) == clock_text(rest@),
{
    let chars: Vec<char> = chars_of(rest);
    let mut end: usize = chars.len();
    assert(chars@.take(end as int) =~= chars@);
    while end > 0 && chars[end - 1] == 'Z'
        invariant
            end <= chars@.len(),
            without_zulu(chars@) == without_zulu(chars@.take(end as int)),
        decreases end,
    {
        assert(chars@.take(end as int).drop_last() =~= chars@.take(end - 1));
        end -= 1;
    }
    let zoneless: String = piece(chars.as_slice(), 0, end);
    assert(zoneless@ =~= without_zulu(rest@)) by {
        assert(chars@.subrange(0, end as int) =~= chars@.take(end as int));
    }
    let chars: Vec<char> = chars_of(zoneless.as_str());
    let count: usize = chars.len();
    let plus: usize = find_char(chars.as_slice(), '+', 0);
    let mut at: usize = count;
    if plus < count {
        at = plus + 1;
    } else {
        while at > 0 && chars[at - 1] != '-'
            invariant
                at <= count == chars@.len(),
                last_before(chars@, '-', count as int) == last_before(chars@, '-', at as int),
            decreases at,
        {
            at -= 1;
        }
        if at <= 1 {
            return Some(zoneless);
        }
    }
    assert(offset_at(chars@) == Some(at - 1));
    let offset: String = piece(chars.as_slice(), at, count);
    assert(offset@ =~= chars@.skip(at as int));
    let offset: &str = offset.as_str();
    if same(offset, "00:00") || same(offset, "0000") || same(offset, "00") {
        let clock: String = piece(chars.as_slice(), 0, at - 1);
        assert(clock@ =~= chars@.take(at - 1));
        Some(clock)
    } else {
        None
    }
}

fn part(list: &Vec<String>, n: usize) -> (value: Option<i64>)
    ensures
        number_at(views(list@), n as int) == (match value {
            Some(value) => Some(value as int),
            None => None,
        }),
{
    if n < list.len() {
        assert(views(list@)[n as int] == list@[n as int]@);
        read_signed(list[n].as_str())
    } else {
        None
    }
}

fn fraction_of(fraction: &str) -> (nanos: u64)
    ensures
        nanos == fraction_nanos(fraction@),
        nanos < 1_000_000_000,
{
    let chars: Vec<char> = chars_of(fraction);
    let end: usize = run_end(chars.as_slice(), 0, Class::Digit);
    let ghost digits = chars@.take(end as int);
    let mut nanos: u64 = 0;
    let mut limit: u64 = 1;
    let mut i: usize = 0;
    proof {
        crate::lexer::lemma_run(chars@, 0, Class::Digit);
    }
    while i < 9
        invariant
            i <= 9,
            end <= chars@.len(),
            digits == chars@.take(end as int),
            forall|j: int| 0 <= j < end ==> crate::lexer::in_class(Class::Digit, #[trigger] chars@[j]),
            nanos == head(digits, i as int),
            nanos < limit,
            i == 0 ==> limit == 1,
            i == 1 ==> limit == 10,
            i == 2 ==> limit == 100,
            i == 3 ==> limit == 1_000,
            i == 4 ==> limit == 10_000,
            i == 5 ==> limit == 100_000,
            i == 6 ==> limit == 1_000_000,
            i == 7 ==> limit == 10_000_000,
            i == 8 ==> limit == 100_000_000,
            i == 9 ==> limit == 1_000_000_000,
        decreases 9 - i,
    {
        let digit: u64 = if i < end {
            assert(crate::lexer::in_class(Class::Digit, chars@[i as int]));
            assert(digits[i as int] == chars@[i as int]);
            let c: char = chars[i];
            (c as u8 - 48u8) as u64
        } else {
            0
        };
        nanos = nanos * 10 + digit;
        limit = limit * 10;
        i += 1;
    }
    nanos
}

/// Parses an RFC3339 timestamp.
pub fn parse_rfc3339(raw: &str) -> (r: Result<u64, Error>)
    ensures
        time_outcome(r) == rfc3339_time(raw@),
{
    let chars: Vec<char> = chars_of(raw);
    let t: usize = find_char(chars.as_slice(), 'T', 0);
    if t >= chars.len() {
        return Err(message_about(raw, " is not a valid RFC3339 timestamp"));
    }
    let date: String = piece(chars.as_slice(), 0, t);
    let rest: String = piece(chars.as_slice(), t + 1, chars.len());
    assert(date@ =~= raw@.take(t as int));
    assert(rest@ =~= raw@.skip(t + 1));
    let date: Vec<String> = split(date.as_str(), '-');
    let (year, month, day): (i64, i64, i64) = match (part(&date, 0), part(&date, 1), part(
        &date,
        2,
    )) {
        (Some(year), Some(month), Some(day)) => (year, month, day),
        _ => {
            return Err(message_about(raw, " is not a valid RFC3339 timestamp"));
        },
    };
    if month < 1 || month > 12 || day < 1 || day > 31 {
        return Err(message_about(raw, " is not a valid RFC3339 timestamp"));
    }
    let clock: String = match clock_of(rest.as_str()) {
        Some(clock) => clock,
        None => {
            return Err(message_about(raw, " is not a valid RFC3339 timestamp"));
        },
    };
    let chars: Vec<char> = chars_of(clock.as_str());
    let count: usize = chars.len();
    let dot: usize = find_char(chars.as_slice(), '.', 0);
    let hms: String = piece(chars.as_slice(), 0, dot);
    let fraction: String = if dot < count {
        piece(chars.as_slice(), dot + 1, count)
    } else {
        String::new()
    };
    proof {
        assert(hms@ =~= clock@.take(dot as int));
        assert(dot < count ==> fraction@ =~= clock@.skip(dot + 1));
        assert(dot >= count ==> fraction@ =~= Seq::empty());
    }
    let parts: Vec<String> = split(hms.as_str(), ':');
    let second: Option<i64> = if parts.len() > 2 {
        part(&parts, 2)
    } else {
        Some(0)
    };
    let (hour, minute, second): (i64, i64, i64) = match (part(&parts, 0), part(&parts, 1), second) {
        (Some(hour), Some(minute), Some(second)) => (hour, minute, second),
        _ => {
            return Err(message_about(raw, " is not a valid RFC3339 timestamp"));
        },
    };
    let nanos: u64 = fraction_of(fraction.as_str());
    let days: i128 = days_of(year, month, day);
    let seconds: i128 = days * 86_400 + hour as i128 * 3_600 + minute as i128 * 60 + second as i128;
    if seconds < 0 {
        return Err(
            message_about(raw, " is before the unix epoch, which telemetryd does not store"),
        );
    }
    if seconds > u64::MAX as i128 {
        return Err(message_about(raw, " is not a valid RFC3339 timestamp"));
    }
    let total: i128 = seconds * 1_000_000_000 + nanos as i128;
    if total > u64::MAX as i128 {
        return Err(message_about(raw, " is not a valid RFC3339 timestamp"));
    }
    Ok(total as u64)
}

/// The first token of a text, where it is a duration.
pub open spec fn duration_text(raw: Seq<char>) -> Result<Option<u64>, Fault> {
    match tokenized(raw) {
        Err(fault) => Err(fault),
        Ok(tokens) => if tokens.len() > 0 {
            match tokens[0].token {
                Lexeme::Duration(nanos) => Ok(Some(nanos)),
                _ => Ok(None),
            }
        } else {
            Ok(None)
        },
    }
}

/// The nanoseconds of a `since` parameter.
pub open spec fn since_window(raw: Seq<char>) -> Result<u64, Fault> {
    match duration_text(raw) {
        Err(fault) => Err(fault),
        Ok(Some(nanos)) => Ok(nanos),
        Ok(None) => Err(
            refused(debug_text(raw) + " is not a duration (try `1h`, `30m`, `5s`)"@),
        ),
    }
}

fn parse_duration_nanos(raw: &str) -> (r: Result<u64, Error>)
    ensures
        time_outcome(r) == since_window(raw@),
{
    let tokens: Vec<Spanned> = match tokenize(raw) {
        Ok(tokens) => tokens,
        Err(error) => {
            return Err(error);
        },
    };
    if tokens.len() > 0 {
        assert(views(tokens@)[0] == tokens@[0]@);
        match &tokens[0].token {
            Lexeme::Duration(nanos) => {
                return Ok(*nanos);
            },
            _ => {},
        }
    }
    Err(message_about(raw, " is not a duration (try `1h`, `30m`, `5s`)"))
}

/// A parameter that is there and not empty.
pub open spec fn given(param: Option<Seq<char>>) -> Option<Seq<char>> {
    match param {
        Some(text) => if text.len() == 0 {
            None
        } else {
            Some(text)
        },
        None => None,
    }
}

/// A parameter that is there and not empty.
pub fn given_text<'a>(param: Option<&'a str>) -> (text: Option<&'a str>)
    ensures
        option_view(text) == given(option_view(param)),
{
    match param {
        Some(text) => if text.is_empty() {
            None
        } else {
            Some(text)
        },
        None => None,
    }
}

/// The range that `start`, `end` and `since` ask for: by default the last six hours.
pub open spec fn range_of(
    start: Option<Seq<char>>,
    end: Option<Seq<char>>,
    since: Option<Seq<char>>,
    now: u64,
) -> Result<(u64, u64), Fault> {
    let ended = match given(end) {
        Some(raw) => loki_time(raw),
        None => Ok(now),
    };
    match ended {
        Err(fault) => Err(fault),
        Ok(end_nanos) => {
            let started = match given(start) {
                Some(raw) => loki_time(raw),
                None => match given(since) {
                    Some(raw) => match since_window(raw) {
                        Ok(window) => Ok(minus(end_nanos, window)),
                        Err(fault) => Err(fault),
                    },
                    None => Ok(minus(end_nanos, DEFAULT_WINDOW)),
                },
            };
            match started {
                Err(fault) => Err(fault),
                Ok(start_nanos) => if start_nanos > end_nanos {
                    Err(refused("`start` must not be after `end`"@))
                } else {
                    Ok((start_nanos, end_nanos))
                },
            }
        },
    }
}

/// A range as contracts speak of it.
pub open spec fn range_outcome(r: Result<(u64, u64), Error>) -> Result<(u64, u64), Fault> {
    match r {
        Ok(range) => Ok(range),
        Err(error) => Err(error@),
    }
}

/// Resolves a start and an end, with `since` and the defaults.
pub fn resolve_range(
    start: Option<&str>,
    end: Option<&str>,
    since: Option<&str>,
    now_nanos: u64,
) -> (r: Result<(u64, u64), Error>)
    ensures
        range_outcome(r) == range_of(
            option_view(start),
            option_view(end),
            option_view(since),
            now_nanos,
        ),
{
    let end_nanos: u64 = match given_text(end) {
        Some(raw) => match parse_time(raw) {
            Ok(nanos) => nanos,
            Err(error) => {
                return Err(error);
            },
        },
        None => now_nanos,
    };
    let start_nanos: u64 = match given_text(start) {
        Some(raw) => match parse_time(raw) {
            Ok(nanos) => nanos,
            Err(error) => {
                return Err(error);
            },
        },
        None => {
            let window: u64 = match given_text(since) {
                Some(raw) => match parse_duration_nanos(raw) {
                    Ok(window) => window,
                    Err(error) => {
                        return Err(error);
                    },
                },
                None => DEFAULT_WINDOW,
            };
            end_nanos.saturating_sub(window)
        },
    };
    if start_nanos > end_nanos {
        return Err(Failure::BadRequest("`start` must not be after `end`".to_owned()));
    }
    Ok((start_nanos, end_nanos))
}

// ---------------------------------------------------------------------------
// Requests
// ---------------------------------------------------------------------------

/// A parsed and validated `query_range` request.
#[derive(Debug)]
pub struct QueryRangeRequest {
    pub query: LogQuery,
    pub start_nanos: u64,
    pub end_nanos: u64,
    pub limit: usize,
    pub direction: Direction,
}

pub struct RequestView {
    pub query: LogQueryView,
    pub start_nanos: u64,
    pub end_nanos: u64,
    pub limit: usize,
    pub direction: Direction,
}

impl View for QueryRangeRequest {
    type V = RequestView;

    open spec fn view(&self) -> RequestView {
        RequestView {
            query: self.query@,
            start_nanos: self.start_nanos,
            end_nanos: self.end_nanos,
            limit: self.limit,
            direction: self.direction,
        }
    }
}

/// Raw query-string parameters, before validation.
#[derive(Debug)]
pub struct QueryRangeParams {
    pub query: Option<String>,
    pub start: Option<String>,
    pub end: Option<String>,
    pub limit: Option<String>,
    pub direction: Option<String>,
    pub since: Option<String>,
    /// Accepted and ignored, as `interval` is: they only affect metric queries.
    pub step: Option<String>,
    pub interval: Option<String>,
}

impl Default for QueryRangeParams {
    fn default() -> (params: QueryRangeParams)
        ensures
            params == (QueryRangeParams {
                query: None,
                start: None,
                end: None,
                limit: None,
                direction: None,
                since: None,
                step: None,
                interval: None,
            }),
    {
        QueryRangeParams {
            query: None,
            start: None,
            end: None,
            limit: None,
            direction: None,
            since: None,
            step: None,
            interval: None,
        }
    }
}

/// Parameters shared by `labels`, `label/{name}/values` and `series`.
#[derive(Debug)]
pub struct RangeParams {
    pub start: Option<String>,
    pub end: Option<String>,
    pub since: Option<String>,
    /// `series` takes one or more selectors under the repeated `match[]` parameter.
    pub matches: Vec<String>,
    pub query: Option<String>,
}

impl Default for RangeParams {
    fn default() -> (params: RangeParams)
        ensures
            params.start is None && params.end is None && params.since is None
                && params.query is None && params.matches@.len() == 0,
    {
        RangeParams { start: None, end: None, since: None, matches: Vec::new(), query: None }
    }
}

pub open spec fn no_query() -> Fault {
    refused("the `query` parameter is required"@)
}

/// A limit on entries: a number that is not zero, `default` where none is given, and
/// never more than `max`.
pub open spec fn limit_of(param: Option<Seq<char>>, default: usize, max: usize) -> Result<
    usize,
    Fault,
> {
    match given(param) {
        None => Ok(default),
        Some(raw) => match parse_unsigned(trim(raw), usize::MAX as nat) {
            None => Err(refused("`limit` must be a number, got "@ + debug_text(raw))),
            Some(n) => if n == 0 {
                Err(refused("`limit` must be greater than zero"@))
            } else if n > max {
                Ok(max)
            } else {
                Ok(n as usize)
            },
        },
    }
}

/// A limit as contracts speak of it.
pub open spec fn limit_outcome(r: Result<usize, Error>) -> Result<usize, Fault> {
    match r {
        Ok(n) => Ok(n),
        Err(error) => Err(error@),
    }
}

/// Reads a limit on entries.
pub fn read_limit(param: Option<&str>, default: usize, max: usize) -> (r: Result<usize, Error>)
    ensures
        limit_outcome(r) == limit_of(option_view(param), default, max),
{
    let raw: &str = match given_text(param) {
        None => {
            return Ok(default);
        },
        Some(raw) => raw,
    };
    match read_unsigned(trimmed(raw).as_str(), usize::MAX as u64) {
        None => {
            let mut message: String = "`limit` must be a number, got ".to_owned();
            message.append(quoted(raw).as_str());
            Err(Failure::BadRequest(message))
        },
        Some(n) => {
            if n == 0 {
                Err(Failure::BadRequest("`limit` must be greater than zero".to_owned()))
            } else if n > max as u64 {
                Ok(max)
            } else {
                Ok(n as usize)
            }
        },
    }
}

/// A direction that a parameter asks for: backward where none is given.
pub open spec fn direction_of(param: Option<Seq<char>>) -> Result<Direction, Fault> {
    match given(param) {
        None => Ok(Direction::Backward),
        Some(text) => if text == "backward"@ {
            Ok(Direction::Backward)
        } else if text == "forward"@ {
            Ok(Direction::Forward)
        } else {
            Err(
                refused("`direction` must be `forward` or `backward`, got "@ + debug_text(text)),
            )
        },
    }
}

fn read_direction(param: Option<&str>) -> (r: Result<Direction, Error>)
    ensures
        direction_of(option_view(param)) == (match r {
            Ok(direction) => Ok::<Direction, Fault>(direction),
            Err(error) => Err(error@),
        }),
{
    match given_text(param) {
        None => Ok(Direction::Backward),
        Some(text) => {
            if same(text, "backward") {
                Ok(Direction::Backward)
            } else if same(text, "forward") {
                Ok(Direction::Forward)
            } else {
                let mut message: String =
                    "`direction` must be `forward` or `backward`, got ".to_owned();
                message.append(quoted(text).as_str());
                Err(Failure::BadRequest(message))
            }
        },
    }
}

/// An optional parameter as a `str`.
pub fn text_of(param: &Option<String>) -> (text: Option<&str>)
    ensures
        option_view(text) == option_view(*param),
{
    match param {
        Some(text) => Some(text.as_str()),
        None => None,
    }
}

/// The request that parameters make, or why they make none.
pub open spec fn request_of(params: QueryRangeParams, now: u64) -> Result<RequestView, Fault> {
    match option_view(params.query) {
        None => Err(no_query()),
        Some(raw) => if trim(raw).len() == 0 {
            Err(no_query())
        } else {
            match log_query(raw) {
                Err(fault) => Err(fault),
                Ok(query) => match range_of(
                    option_view(params.start),
                    option_view(params.end),
                    option_view(params.since),
                    now,
                ) {
                    Err(fault) => Err(fault),
                    Ok((start_nanos, end_nanos)) => match limit_of(
                        option_view(params.limit),
                        DEFAULT_LIMIT,
                        MAX_LIMIT,
                    ) {
                        Err(fault) => Err(fault),
                        Ok(limit) => match direction_of(option_view(params.direction)) {
                            Err(fault) => Err(fault),
                            Ok(direction) => Ok(
                                RequestView { query, start_nanos, end_nanos, limit, direction },
                            ),
                        },
                    },
                },
            }
        },
    }
}

impl QueryRangeRequest {
    /// Validates raw parameters into a runnable request.
    pub fn from_params(params: &QueryRangeParams, now_nanos: u64) -> (r: Result<
        QueryRangeRequest,
        Error,
    >)
        ensures
            outcome(r) == request_of(*params, now_nanos),
    {
        let raw: &str = match &params.query {
            Some(raw) => raw.as_str(),
            None => {
                return Err(Failure::BadRequest("the `query` parameter is required".to_owned()));
            },
        };
        if trimmed(raw).as_str().is_empty() {
            return Err(Failure::BadRequest("the `query` parameter is required".to_owned()));
        }
        let query: LogQuery = match crate::logql::parse(raw) {
            Ok(query) => query,
            Err(error) => {
                return Err(error);
            },
        };
        let (start_nanos, end_nanos): (u64, u64) = match resolve_range(
            text_of(&params.start),
            text_of(&params.end),
            text_of(&params.since),
            now_nanos,
        ) {
            Ok(range) => range,
            Err(error) => {
                return Err(error);
            },
        };
        let limit: usize = match read_limit(text_of(&params.limit), DEFAULT_LIMIT, MAX_LIMIT) {
            Ok(limit) => limit,
            Err(error) => {
                return Err(error);
            },
        };
        let direction: Direction = match read_direction(text_of(&params.direction)) {
            Ok(direction) => direction,
            Err(error) => {
                return Err(error);
            },
        };
        Ok(QueryRangeRequest { query, start_nanos, end_nanos, limit, direction })
    }

    /// Whether a record passes the query's pipeline. Label filters see the stream's
    /// labels and the record's attributes.
    pub fn selects(&self, record: &LogRecord) -> (r: bool)
        ensures
            r == passes(
                self@.query.stages,
                record@.body,
                merged(record@.stream, record@.attributes),
            ),
    {
        let mut base: Labels = record.stream.clone();
        base.merge(&record.attributes);
        self.query.evaluate(record.body.as_str(), &base)
    }
}

// ---------------------------------------------------------------------------
// Responses
// ---------------------------------------------------------------------------

#[derive(Debug)]
pub struct LokiResponse<T> {
    pub status: &'static str,
    pub data: T,
}

impl<T> LokiResponse<T> {
    pub fn success(data: T) -> (response: LokiResponse<T>)
        ensures
            response.status@ == "success"@,
            response.data == data,
    {
        LokiResponse { status: "success", data }
    }
}

#[derive(Debug)]
pub struct StreamsData {
    pub result_type: &'static str,
    pub result: Vec<StreamResult>,
    pub stats: Stats,
}

#[derive(Debug)]
pub struct StreamResult {
    pub stream: Labels,
    pub values: Vec<Entry>,
}

pub struct StreamView {
    pub stream: Seq<Pair>,
    pub values: Seq<EntryView>,
}

impl View for StreamResult {
    type V = StreamView;

    open spec fn view(&self) -> StreamView {
        StreamView { stream: self.stream@, values: views(self.values@) }
    }
}

/// One log entry on the wire: `[timestamp, line]`, or with the record's attributes and
/// extracted fields behind them where there are any. The timestamp is a text because a JSON
/// number loses nanoseconds.
#[derive(Debug)]
pub enum Entry {
    Plain(String, String),
    WithMetadata(String, String, Labels),
}

pub enum EntryView {
    Plain(Seq<char>, Seq<char>),
    WithMetadata(Seq<char>, Seq<char>, Seq<Pair>),
}

impl View for Entry {
    type V = EntryView;

    open spec fn view(&self) -> EntryView {
        match self {
            Entry::Plain(timestamp, line) => EntryView::Plain(timestamp@, line@),
            Entry::WithMetadata(timestamp, line, metadata) => EntryView::WithMetadata(
                timestamp@,
                line@,
                metadata@,
            ),
        }
    }
}

/// The entry of a line. Without metadata the element is left out entirely.
pub open spec fn entry_of(nanos: u64, line: Seq<char>, metadata: Seq<Pair>) -> EntryView {
    if metadata.len() == 0 {
        EntryView::Plain(decimal(nanos as nat), line)
    } else {
        EntryView::WithMetadata(decimal(nanos as nat), line, metadata)
    }
}

impl Entry {
    pub fn new(timestamp_nanos: u64, line: String, metadata: Labels) -> (entry: Entry)
        ensures
            entry@ == entry_of(timestamp_nanos, line@, metadata@),
    {
        if metadata.is_empty() {
            Entry::Plain(decimal_text(timestamp_nanos), line)
        } else {
            Entry::WithMetadata(decimal_text(timestamp_nanos), line, metadata)
        }
    }

    pub fn timestamp(&self) -> (timestamp: &str)
        ensures
            timestamp@ == (match self@ {
                EntryView::Plain(timestamp, _) => timestamp,
                EntryView::WithMetadata(timestamp, _, _) => timestamp,
            }),
    {
        match self {
            Entry::Plain(timestamp, _) => timestamp.as_str(),
            Entry::WithMetadata(timestamp, _, _) => timestamp.as_str(),
        }
    }
}

#[derive(Debug, Clone, Copy, PartialEq, Eq, Structural)]
pub struct Stats {
    pub summary: StatsSummary,
}

#[derive(Debug, Clone, Copy, PartialEq, Eq, Structural)]
pub struct StatsSummary {
    pub total_lines_processed: u64,
    pub total_entries_returned: u64,
}

// ---------------------------------------------------------------------------
// Answers
// ---------------------------------------------------------------------------

/// Whether a record comes before another in a direction.
pub open spec fn comes_first(direction: Direction, a: LogView, b: LogView) -> bool {
    match direction {
        Direction::Backward => a.timestamp_nanos > b.timestamp_nanos,
        Direction::Forward => a.timestamp_nanos < b.timestamp_nanos,
    }
}

/// The places of records in a direction, those of one time as they stood.
pub open spec fn in_direction(records: Seq<LogView>, direction: Direction) -> Seq<int> {
    ordered(records.len(), |a: int, b: int| comes_first(direction, records[a], records[b]))
}

/// The records that are returned: the first `limit` in the direction. Ordering comes
/// before limiting, so that a backward query returns the newest entries of the range.
pub open spec fn returned(records: Seq<LogView>, direction: Direction, limit: nat) -> Seq<LogView> {
    let places = in_direction(records, direction);
    Seq::new(
        if limit < records.len() {
            limit
        } else {
            records.len()
        },
        |i: int| records[places[i]],
    )
}

/// What an entry shows beside its line: the record's attributes and what the parser stages
/// pull out of the line. What is pulled out wins, so that the value a filter matched on is
/// the one that is seen.
pub open spec fn metadata_of(record: LogView, stages: Seq<StageView>) -> Seq<Pair> {
    merged(record.attributes, extracts(stages, record.body, Seq::empty()))
}

pub open spec fn entries_of(records: Seq<LogView>, stages: Seq<StageView>) -> Seq<EntryView> {
    records.map_values(
        |record: LogView|
            entry_of(record.timestamp_nanos, record.body, metadata_of(record, stages)),
    )
}

/// The stream of one group of records, its entries in the direction.
pub open spec fn stream_of(
    records: Seq<LogView>,
    group: Seq<int>,
    direction: Direction,
    stages: Seq<StageView>,
) -> StreamView {
    let own = chosen(records, group);
    StreamView {
        stream: records[group[0]].stream,
        values: entries_of(chosen(own, in_direction(own, direction)), stages),
    }
}

/// Records grouped by stream, the streams in the order of their label sets.
pub open spec fn streams_of(
    records: Seq<LogView>,
    direction: Direction,
    stages: Seq<StageView>,
) -> Seq<StreamView> {
    sorted_groups(log_streams(records)).map_values(
        |group: Seq<int>| stream_of(records, group, direction, stages),
    )
}

fn order_records(records: &Vec<&LogRecord>, direction: Direction) -> (places: Vec<usize>)
    ensures
        numbers(places@) == in_direction(views(records@), direction),
        places@.len() == records@.len(),
        forall|k: int| 0 <= k < places@.len() ==> #[trigger] places@[k] < records@.len(),
{
    let ghost all = views(records@);
    let ghost less = |a: int, b: int| comes_first(direction, all[a], all[b]);
    let before = |i: usize, j: usize| -> (r: bool)
        requires
            i < records@.len(),
            j < records@.len(),
        ensures
            r == comes_first(direction, views(records@)[i as int], views(records@)[j as int]),
        {
            match direction {
                Direction::Backward => records[i].timestamp_nanos > records[j].timestamp_nanos,
                Direction::Forward => records[i].timestamp_nanos < records[j].timestamp_nanos,
            }
        };
    order(records.len(), &before, Ghost(less))
}

/// The first `limit` records in the direction.
fn take_first<'a>(records: &'a Vec<LogRecord>, direction: Direction, limit: usize) -> (out: Vec<
    &'a LogRecord,
>)
    ensures
        views(out@) == returned(views(records@), direction, limit as nat),
{
    let ghost all = views(records@);
    let mut refs: Vec<&'a LogRecord> = Vec::new();
    let mut i: usize = 0;
    while i < records.len()
        invariant
            i <= records@.len(),
            all == views(records@),
            refs@.len() == i,
            forall|j: int| 0 <= j < i ==> (#[trigger] refs@[j])@ == all[j],
        decreases records@.len() - i,
    {
        refs.push(&records[i]);
        i += 1;
    }
    assert(views(refs@) =~= all);
    let places: Vec<usize> = order_records(&refs, direction);
    let ghost spots = in_direction(all, direction);
    let count: usize = if limit < records.len() {
        limit
    } else {
        records.len()
    };
    let mut out: Vec<&'a LogRecord> = Vec::new();
    let mut k: usize = 0;
    while k < count
        invariant
            k <= count <= places@.len(),
            places@.len() == refs@.len(),
            all == views(refs@),
            spots == numbers(places@),
            forall|k: int| 0 <= k < places@.len() ==> #[trigger] places@[k] < refs@.len(),
            out@.len() == k,
            forall|j: int| 0 <= j < k ==> (#[trigger] out@[j])@ == all[spots[j]],
        decreases count - k,
    {
        assert(spots[k as int] == places@[k as int]);
        assert(places@[k as int] < refs@.len());
        assert(all[spots[k as int]] == refs@[places@[k as int] as int]@);
        out.push(refs[places[k]]);
        k += 1;
    }
    assert(views(out@) =~= returned(all, direction, limit as nat));
    out
}

/// Groups records by their stream labels, the entries of each stream in the direction and
/// with what the query pulls out of their lines.
pub fn group_into_streams(
    records: &Vec<&LogRecord>,
    direction: Direction,
    query: &LogQuery,
) -> (result: Vec<StreamResult>)
    ensures
        views(result@) == streams_of(views(records@), direction, query@.stages),
{
    let ghost all = views(records@);
    let mut streams: Vec<&Labels> = Vec::new();
    let mut i: usize = 0;
    while i < records.len()
        invariant
            i <= records@.len(),
            all == views(records@),
            streams@.len() == i,
            forall|j: int| 0 <= j < i ==> (#[trigger] streams@[j])@ == all[j].stream,
        decreases records@.len() - i,
    {
        streams.push(&records[i].stream);
        i += 1;
    }
    assert(label_views(streams@) =~= log_streams(all));
    let groups: Vec<Vec<usize>> = sort_groups(&streams);
    let ghost sorted = sorted_groups(log_streams(all));
    proof {
        lemma_sorted_groups(log_streams(all));
    }
    let mut result: Vec<StreamResult> = Vec::new();
    let mut g: usize = 0;
    while g < groups.len()
        invariant
            g <= groups@.len(),
            all == views(records@),
            sorted == places(groups@),
            sound_groups(sorted, log_streams(all), all.len() as int),
            result@.len() == g,
            forall|j: int|
                0 <= j < g ==> (#[trigger] result@[j])@ == stream_of(
                    all,
                    sorted[j],
                    direction,
                    query@.stages,
                ),
        decreases groups@.len() - g,
    {
        proof {
            assert(sorted[g as int] == numbers(groups@[g as int]@));
            assert(sorted[g as int].len() > 0);
        }
        result.push(one_stream(records, &groups[g], direction, query));
        g += 1;
    }
    assert(views(result@) =~= streams_of(all, direction, query@.stages));
    result
}

fn one_stream(
    records: &Vec<&LogRecord>,
    group: &Vec<usize>,
    direction: Direction,
    query: &LogQuery,
) -> (stream: StreamResult)
    requires
        group@.len() > 0,
        forall|k: int|
            0 <= k < group@.len() ==> 0 <= #[trigger] numbers(group@)[k] < records@.len(),
    ensures
        stream@ == stream_of(views(records@), numbers(group@), direction, query@.stages),
{
    let ghost all = views(records@);
    let ghost at = numbers(group@);
    let ghost own = chosen(all, at);
    let mut refs: Vec<&LogRecord> = Vec::new();
    let mut i: usize = 0;
    while i < group.len()
        invariant
            i <= group@.len(),
            all == views(records@),
            at == numbers(group@),
            own == chosen(all, at),
            forall|k: int| 0 <= k < group@.len() ==> 0 <= #[trigger] at[k] < records@.len(),
            refs@.len() == i,
            forall|j: int| 0 <= j < i ==> (#[trigger] refs@[j])@ == own[j],
        decreases group@.len() - i,
    {
        assert(at[i as int] == group@[i as int]);
        assert(all[at[i as int]] == records@[at[i as int]]@);
        refs.push(records[group[i]]);
        i += 1;
    }
    assert(views(refs@) =~= own);
    let places: Vec<usize> = order_records(&refs, direction);
    let ghost spots = in_direction(own, direction);
    let mut values: Vec<Entry> = Vec::new();
    let mut k: usize = 0;
    while k < places.len()
        invariant
            k <= places@.len(),
            places@.len() == refs@.len(),
            own == views(refs@),
            spots == numbers(places@),
            forall|k: int| 0 <= k < places@.len() ==> #[trigger] places@[k] < refs@.len(),
            values@.len() == k,
            forall|j: int|
                0 <= j < k ==> (#[trigger] values@[j])@ == entries_of(
                    chosen(own, spots),
                    query@.stages,
                )[j],
        decreases places@.len() - k,
    {
        assert(spots[k as int] == places@[k as int]);
        assert(places@[k as int] < refs@.len());
        let record: &LogRecord = refs[places[k]];
        assert(own[spots[k as int]] == record@);
        let mut metadata: Labels = record.attributes.clone();
        metadata.merge(&query.extracted(record.body.as_str()));
        values.push(Entry::new(record.timestamp_nanos, record.body.clone(), metadata));
        k += 1;
    }
    assert(views(values@) =~= entries_of(chosen(own, spots), query@.stages));
    assert(at[0] == group@[0]);
    assert(all[at[0]] == records@[at[0]]@);
    StreamResult { stream: records[group[0]].stream.clone(), values }
}

/// The answer to a `query_range`, from the records of the range that the request selects
/// and the count of those that were looked at.
pub fn query_range(records: &Vec<LogRecord>, scanned: u64, request: &QueryRangeRequest) -> (response:
    LokiResponse<StreamsData>)
    ensures
        response.status@ == "success"@,
        response.data.result_type@ == "streams"@,
        ({
            let kept = returned(views(records@), request@.direction, request@.limit as nat);
            &&& views(response.data.result@) == streams_of(
                kept,
                request@.direction,
                request@.query.stages,
            )
            &&& response.data.stats.summary == (StatsSummary {
                total_lines_processed: scanned,
                total_entries_returned: kept.len() as u64,
            })
        }),
{
    let kept: Vec<&LogRecord> = take_first(records, request.direction, request.limit);
    let result: Vec<StreamResult> = group_into_streams(
        &kept,
        request.direction,
        &request.query,
    );
    LokiResponse::success(
        StreamsData {
            result_type: "streams",
            result,
            stats: Stats {
                summary: StatsSummary {
                    total_lines_processed: scanned,
                    total_entries_returned: kept.len() as u64,
                },
            },
        },
    )
}

// ---------------------------------------------------------------------------
// Metadata
// ---------------------------------------------------------------------------

/// Every label name that any of the streams carries.
pub fn label_names(streams: &Vec<Labels>) -> (response: LokiResponse<Vec<String>>)
    ensures
        response.status@ == "success"@,
        views(response.data@) == sorted_set(all_names(views(streams@))),
{
    LokiResponse::success(names_of(streams))
}

/// Every value that a label takes across the streams.
pub fn label_values(streams: &Vec<Labels>, name: &str) -> (response: LokiResponse<Vec<String>>)
    ensures
        response.status@ == "success"@,
        views(response.data@) == sorted_set(all_values(views(streams@), name@)),
{
    LokiResponse::success(values_of(streams, name))
}

/// The matchers of a query's selector.
pub open spec fn query_matchers(raw: Seq<char>) -> Result<Seq<MatcherView>, Fault> {
    match log_query(raw) {
        Ok(query) => Ok(query.matchers),
        Err(fault) => Err(fault),
    }
}

/// The matchers of each of the first `n` selectors, or the refusal of the first that is
/// none.
pub open spec fn selector_sets(selectors: Seq<Seq<char>>, n: nat) -> Result<
    Seq<Seq<MatcherView>>,
    Fault,
>
    decreases n,
{
    if n == 0 {
        Ok(Seq::empty())
    } else {
        match selector_sets(selectors, (n - 1) as nat) {
            Err(fault) => Err(fault),
            Ok(sets) => match query_matchers(selectors[n - 1]) {
                Err(fault) => Err(fault),
                Ok(matchers) => Ok(sets.push(matchers)),
            },
        }
    }
}

/// The label sets of the streams that some selector accepts; of all without selectors.
pub fn series(streams: &Vec<Labels>, selectors: &Vec<String>) -> (r: Result<
    LokiResponse<Vec<Labels>>,
    Error,
>)
    ensures
        match selector_sets(views(selectors@), selectors@.len()) {
            Err(fault) => r is Err && r->Err_0@ == fault,
            Ok(sets) => r is Ok && r->Ok_0.status@ == "success"@ && views(r->Ok_0.data@)
                == distinct(accepted_streams(views(streams@), sets)),
        },
{
    let ghost all = views(selectors@);
    let mut sets: Vec<Vec<LabelMatcher>> = Vec::new();
    let mut i: usize = 0;
    assert(matcher_sets(sets@) =~= Seq::empty());
    while i < selectors.len()
        invariant
            i <= selectors@.len(),
            all == views(selectors@),
            selector_sets(all, i as nat) == Ok::<Seq<Seq<MatcherView>>, Fault>(
                matcher_sets(sets@),
            ),
        decreases selectors@.len() - i,
    {
        assert(all[i as int] == selectors@[i as int]@);
        let matchers: Vec<LabelMatcher> = match crate::logql::parse(selectors[i].as_str()) {
            Ok(query) => query.matchers,
            Err(error) => {
                proof {
                    lemma_refused_selectors(all, (i + 1) as nat, selectors@.len());
                }
                return Err(error);
            },
        };
        let ghost done = sets@;
        sets.push(matchers);
        assert(matcher_sets(sets@) =~= matcher_sets(done).push(views(matchers@)));
        i += 1;
    }
    Ok(LokiResponse::success(series_of(streams, &sets)))
}

proof fn lemma_refused_selectors(selectors: Seq<Seq<char>>, i: nat, n: nat)
    requires
        selector_sets(selectors, i) is Err,
        i <= n,
    ensures
        selector_sets(selectors, n) == selector_sets(selectors, i),
    decreases n,
{
    if i < n {
        lemma_refused_selectors(selectors, i, (n - 1) as nat);
    }
}

// ---------------------------------------------------------------------------
// Laws
// ---------------------------------------------------------------------------

/// A time whose offset is not UTC is refused, whatever its date and clock time.
pub proof fn law_only_utc_is_read(raw: Seq<char>, t: int, at: int)
    requires
        t == find_from(raw, 'T', 0) < raw.len(),
        offset_at(without_zulu(raw.skip(t + 1))) == Some(at),
        !is_utc(without_zulu(raw.skip(t + 1)).skip(at + 1)),
    ensures
        rfc3339_time(raw) == Err::<u64, Fault>(not_a_time(raw)),
{
}

/// A field that the query pulls out of a line is what its entry shows under that name, and
/// an attribute under any other name is still there.
pub proof fn law_extracted_fields_are_shown(
    record: LogView,
    stages: Seq<StageView>,
    name: Seq<char>,
)
    requires
        sorted(record.attributes),
    ensures
        lookup(metadata_of(record, stages), name) == (match lookup(
            extracts(stages, record.body, Seq::empty()),
            name,
        ) {
            Some(value) => Some(value),
            None => lookup(record.attributes, name),
        }),
{
    law_extracted_fields_are_labels(stages, record.body, Seq::empty());
    law_merge_then_get(
        record.attributes,
        extracts(stages, record.body, Seq::empty()),
        name,
    );
}

/// Without a parser stage an entry shows the record's attributes and nothing else.
pub proof fn law_plain_queries_show_attributes(record: LogView, stages: Seq<StageView>)
    requires
        forall|i: int| 0 <= i < stages.len() ==> !is_parser(#[trigger] stages[i]),
    ensures
        metadata_of(record, stages) == record.attributes,
{
    law_only_parsers_extract(stages, record.body, Seq::empty());
}

/// A range that is given out is never inverted.
pub proof fn law_a_range_is_never_inverted(
    start: Option<Seq<char>>,
    end: Option<Seq<char>>,
    since: Option<Seq<char>>,
    now: u64,
)
    ensures
        match range_of(start, end, since, now) {
            Ok((start_nanos, end_nanos)) => start_nanos <= end_nanos,
            Err(_) => true,
        },
{
}

/// A validated limit is at least one and at most the ceiling.
pub proof fn law_a_limit_is_bounded(param: Option<Seq<char>>, default: usize, max: usize)
    requires
        1 <= default <= max,
    ensures
        match limit_of(param, default, max) {
            Ok(limit) => 1 <= limit <= max,
            Err(_) => true,
        },
{
}

/// No more entries are returned than the limit allows, and none comes before one that the
/// direction puts first.
pub proof fn law_returned_entries_are_the_first(
    records: Seq<LogView>,
    direction: Direction,
    limit: nat,
)
    ensures
        returned(records, direction, limit).len() <= limit,
        forall|a: int, b: int|
            0 <= a < b < returned(records, direction, limit).len() ==> !comes_first(
                direction,
                #[trigger] returned(records, direction, limit)[b],
                #[trigger] returned(records, direction, limit)[a],
            ),
{
    let less = |a: int, b: int| comes_first(direction, records[a], records[b]);
    crate::grouping::law_ordering_orders(records.len(), less);
    crate::grouping::law_ordering_keeps_every_place(records.len(), less);
    let places = in_direction(records, direction);
    let out = returned(records, direction, limit);
    assert forall|a: int, b: int| 0 <= a < b < out.len() implies !comes_first(
        direction,
        #[trigger] out[b],
        #[trigger] out[a],
    ) by {
        assert(!less(places[b], places[a]));
    }
}

} // verus!
