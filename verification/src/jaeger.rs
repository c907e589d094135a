//! Reading the trace context that a Jaeger client sends in one request
//! header.

use opentelemetry::trace::{SpanId, TraceId};
use std::str::FromStr;
use vstd::prelude::*;

verus! {

/// The name of the header that carries the trace context.
pub const JAEGER_FIELD: &'static str = "uber-trace-id";

/// Extracts Jaeger trace contexts; it injects nothing.
#[derive(Debug)]
pub struct JaegerExtractor([String; 1]);

impl JaegerExtractor {
    /// The names of the headers this extractor reads.
    pub closed spec fn field_names(&self) -> Seq<Seq<char>> {
        Seq::new(1, |i: int| self.0[i]@)
    }

    /// An extractor that reads the `uber-trace-id` header.
    pub fn new() -> (extractor: Self)
        ensures
            extractor.field_names() == seq![JAEGER_FIELD@],
    {
        let extractor = JaegerExtractor([JAEGER_FIELD.to_owned()]);
        assert(extractor.field_names() =~= seq![JAEGER_FIELD@]);
        extractor
    }

    /// The names of the headers this extractor reads.
    pub fn fields(&self) -> (names: &[String])
        ensures
            names@.len() == 1,
            names@[0]@ == self.field_names()[0],
    {
        self.0.as_slice()
    }
}

/// The position of the first colon in `text`, or the length of `text` where
/// it holds none.
pub open spec fn first_colon(text: Seq<char>) -> int
    decreases text.len(),
{
    if text.len() == 0 || text[0] == ':' {
        0
    } else {
        1 + first_colon(text.skip(1))
    }
}

/// The fields of `text`: the stretches between its colons, in order. A colon
/// that ends the text closes the last field and opens no new one.
pub open spec fn fields_of(text: Seq<char>) -> Seq<Seq<char>>
    decreases text.len(),
{
    if text.len() == 0 {
        Seq::empty()
    } else {
        let colon = first_colon(text);
        if colon >= text.len() {
            seq![text]
        } else {
            proof {
                lemma_first_colon(text);
            }
            seq![text.take(colon)] + fields_of(text.skip(colon + 1))
        }
    }
}

/// Where `first_colon` points: within the text, at a colon with none before
/// it, or at the end of a text without colons.
pub proof fn lemma_first_colon(text: Seq<char>)
    ensures
        0 <= first_colon(text) <= text.len(),
        first_colon(text) < text.len() ==> text[first_colon(text)] == ':',
        forall|i: int| 0 <= i < first_colon(text) ==> text[i] != ':',
    decreases text.len(),
{
    if text.len() > 0 && text[0] != ':' {
        let rest = text.skip(1);
        lemma_first_colon(rest);
        assert forall|i: int| 0 <= i < first_colon(text) implies text[i] != ':' by {
            if i > 0 {
                assert(text[i] == rest[i - 1]);
            }
        }
    }
}

/// A position with a colon, and none before it, is where `first_colon`
/// points; so is the end of a text without colons.
proof fn lemma_first_colon_is(text: Seq<char>, at: int)
    requires
        0 <= at <= text.len(),
        at < text.len() ==> text[at] == ':',
        forall|i: int| 0 <= i < at ==> text[i] != ':',
    ensures
        first_colon(text) == at,
{
    lemma_first_colon(text);
}

/// Splits `value` at its colons.
pub fn split_fields<'a>(value: &'a str) -> (parts: Vec<&'a str>)
    ensures
        parts@.len() == fields_of(value@).len(),
        forall|i: int| 0 <= i < parts@.len() ==> parts@[i]@ == fields_of(value@)[i],
{
    let n: usize = value.unicode_len();
    let mut parts: Vec<&'a str> = Vec::new();
    let mut start: usize = 0;
    let mut i: usize = 0;
    let ghost text = value@;
    let ghost mut done: Seq<Seq<char>> = Seq::empty();
    assert(text.skip(0) =~= text);
    while i < n
        invariant
            text == value@,
            n == text.len(),
            start <= i <= n,
            forall|k: int| start <= k < i ==> text[k] != ':',
            done.len() == parts@.len(),
            forall|k: int| 0 <= k < parts@.len() ==> parts@[k]@ == done[k],
            fields_of(text) == done + fields_of(text.skip(start as int)),
        decreases n - i,
    {
        let c = value.get_char(i);
        if c == ':' {
            let part = value.substring_char(start, i);
            proof {
                let rest = text.skip(start as int);
                lemma_first_colon_is(rest, i - start);
                assert(rest.take(i - start) =~= text.subrange(start as int, i as int));
                assert(rest.skip(i - start + 1) =~= text.skip(i + 1));
                assert(done + (seq![rest.take(i - start)] + fields_of(text.skip(i + 1))) =~= done.push(
                    part@,
                ) + fields_of(text.skip(i + 1)));
                done = done.push(part@);
            }
            parts.push(part);
            start = i + 1;
        }
        i = i + 1;
    }
    if start < n {
        let part = value.substring_char(start, n);
        proof {
            let rest = text.skip(start as int);
            lemma_first_colon_is(rest, n - start);
            assert(rest =~= text.subrange(start as int, n as int));
            assert(done + seq![rest] =~= done.push(part@));
            done = done.push(part@);
        }
        parts.push(part);
    } else {
        assert(done + Seq::<Seq<char>>::empty() =~= done);
    }
    assert(done =~= fields_of(text));
    parts
}

/// The value of `c` as a digit in base `radix`: `0` to `9` count as zero to
/// nine and the letters, in either case, as ten and up. A character that is
/// no digit of that base has no value.
pub open spec fn digit_value(c: char, radix: int) -> Option<int> {
    let value: int = if '0' <= c <= '9' {
        c as int - '0' as int
    } else if 'a' <= c <= 'z' {
        c as int - 'a' as int + 10
    } else if 'A' <= c <= 'Z' {
        c as int - 'A' as int + 10
    } else {
        radix
    };
    if value < radix {
        Some(value)
    } else {
        None
    }
}

/// The number that `digits` write in base `radix`, most significant digit
/// first; none where a character is no digit of that base.
pub open spec fn digits_value(digits: Seq<char>, radix: int) -> Option<int>
    decreases digits.len(),
{
    if digits.len() == 0 {
        Some(0)
    } else {
        match (digits_value(digits.drop_last(), radix), digit_value(digits.last(), radix)) {
            (Some(high), Some(low)) => Some(high * radix + low),
            _ => None,
        }
    }
}

/// The number that `text` writes in base `radix` and that is at most `max`:
/// one or more digits, which a single `+` may precede. Anything else, and a
/// number above `max`, has no value.
pub open spec fn unsigned_value(text: Seq<char>, radix: int, max: int) -> Option<int> {
    let digits = if text.len() > 0 && text[0] == '+' {
        text.skip(1)
    } else {
        text
    };
    if digits.len() == 0 {
        None
    } else {
        match digits_value(digits, radix) {
            Some(value) => if value <= max {
                Some(value)
            } else {
                None
            },
            None => None,
        }
    }
}

/// A number written with digits is never negative.
pub proof fn lemma_digits_value_bounds(digits: Seq<char>, radix: int)
    requires
        radix > 0,
    ensures
        digits_value(digits, radix) matches Some(value) ==> value >= 0,
    decreases digits.len(),
{
    if digits.len() > 0 {
        lemma_digits_value_bounds(digits.drop_last(), radix);
        match (digits_value(digits.drop_last(), radix), digit_value(digits.last(), radix)) {
            (Some(high), Some(low)) => {
                assert(high * radix >= 0) by (nonlinear_arith)
                    requires
                        high >= 0,
                        radix > 0,
                ;
            },
            _ => {},
        }
    }
}

/// A number that has a value lies between zero and the bound it was read
/// against.
pub proof fn lemma_unsigned_value_bounds(text: Seq<char>, radix: int, max: int)
    requires
        radix > 0,
    ensures
        unsigned_value(text, radix, max) matches Some(value) ==> 0 <= value <= max,
{
    if text.len() > 0 && text[0] == '+' {
        lemma_digits_value_bounds(text.skip(1), radix);
    } else {
        lemma_digits_value_bounds(text, radix);
    }
}

/// Calls `opentelemetry::trace::TraceId::from_hex`, which parses its
/// argument as a `u128` in base 16, and hands back the number inside the
/// id. Believed, not proved: the result is the number the text writes in
/// base 16, and there is none where the text is no such number or the
/// number does not fit 128 bits.
#[verifier::external_body]
fn trace_id_from_hex(hex: &str) -> (id: Option<u128>)
    ensures
        match unsigned_value(hex@, 16, u128::MAX as int) {
            Some(value) => id == Some(value as u128),
            None => id.is_none(),
        },
{
    match TraceId::from_hex(hex) {
        Ok(id) => Some(u128::from_be_bytes(id.to_bytes())),
        Err(_) => None,
    }
}

/// Calls `opentelemetry::trace::SpanId::from_hex`, which parses its
/// argument as a `u64` in base 16, and hands back the number inside the id.
/// Believed, not proved: the result is the number the text writes in base
/// 16, and there is none where the text is no such number or the number
/// does not fit 64 bits.
#[verifier::external_body]
fn span_id_from_hex(hex: &str) -> (id: Option<u64>)
    ensures
        match unsigned_value(hex@, 16, u64::MAX as int) {
            Some(value) => id == Some(value as u64),
            None => id.is_none(),
        },
{
    match SpanId::from_hex(hex) {
        Ok(id) => Some(u64::from_be_bytes(id.to_bytes())),
        Err(_) => None,
    }
}

/// Calls `u8::from_str`. Believed, not proved: the result is the number the
/// text writes in base 10, and there is none where the text is no such
/// number or the number is above 255.
#[verifier::external_body]
fn flags_from_decimal(text: &str) -> (flags: Option<u8>)
    ensures
        match unsigned_value(text@, 10, u8::MAX as int) {
            Some(value) => flags == Some(value as u8),
            None => flags.is_none(),
        },
{
    u8::from_str(text).ok()
}

/// The span that a request continues, as its sender named it.
#[derive(Clone, Copy, Debug, PartialEq, Eq, Structural)]
pub struct RemoteSpan {
    /// The trace the span belongs to.
    pub trace_id: u128,
    /// The span itself.
    pub span_id: u64,
    /// Whether the sender asked for the trace to be recorded.
    pub sampled: bool,
}

/// The span that the parsed fields of a header give: all three numbers
/// must be there, and the lowest bit of the flags says whether the trace is
/// sampled.
pub open spec fn span_of_numbers(
    trace_id: Option<int>,
    span_id: Option<int>,
    flags: Option<int>,
) -> Option<RemoteSpan> {
    match (trace_id, span_id, flags) {
        (Some(trace_id), Some(span_id), Some(flags)) => Some(
            RemoteSpan {
                trace_id: trace_id as u128,
                span_id: span_id as u64,
                sampled: flags % 2 == 1,
            },
        ),
        _ => None,
    }
}

/// The span that a header value names. The value has four fields: the
/// trace id and the span id in base 16, the parent span, which is not read,
/// and the flags in base 10. A value of any other shape names no span.
pub open spec fn span_of_header(value: Seq<char>) -> Option<RemoteSpan> {
    let fields = fields_of(value);
    if fields.len() != 4 {
        None
    } else {
        span_of_numbers(
            unsigned_value(fields[0], 16, u128::MAX as int),
            unsigned_value(fields[1], 16, u64::MAX as int),
            unsigned_value(fields[3], 10, u8::MAX as int),
        )
    }
}

/// Puts a span together from the three numbers parsed out of a header.
pub fn assemble_span(trace_id: Option<u128>, span_id: Option<u64>, flags: Option<u8>) -> (span:
    Option<RemoteSpan>)
    ensures
        span == span_of_numbers(
            match trace_id {
                Some(id) => Some(id as int),
                None => None,
            },
            match span_id {
                Some(id) => Some(id as int),
                None => None,
            },
            match flags {
                Some(flags) => Some(flags as int),
                None => None,
            },
        ),
{
    match (trace_id, span_id, flags) {
        (Some(trace_id), Some(span_id), Some(flags)) => {
            assert((flags & 1 != 0) == (flags % 2 == 1)) by (bit_vector);
            Some(RemoteSpan { trace_id, span_id, sampled: flags & 1 != 0 })
        },
        _ => None,
    }
}

impl JaegerExtractor {
    /// Reads the span out of the value of the trace header; a request
    /// without that header is read as one with an empty value.
    pub fn extract(&self, value: Option<&str>) -> (span: Option<RemoteSpan>)
        ensures
            span == span_of_header(
                match value {
                    Some(value) => value@,
                    None => Seq::empty(),
                },
            ),
    {
        let value: &str = match value {
            Some(value) => value,
            None => {
                proof {
                    reveal_strlit("");
                }
                assert(""@ =~= Seq::<char>::empty());
                ""
            },
        };
        let parts = split_fields(value);
        if parts.len() != 4 {
            return None;
        }
        proof {
            lemma_unsigned_value_bounds(parts[0]@, 16, u128::MAX as int);
            lemma_unsigned_value_bounds(parts[1]@, 16, u64::MAX as int);
            lemma_unsigned_value_bounds(parts[3]@, 10, u8::MAX as int);
        }
        let trace_id = trace_id_from_hex(parts[0]);
        let span_id = span_id_from_hex(parts[1]);
        let flags = flags_from_decimal(parts[3]);
        assemble_span(trace_id, span_id, flags)
    }
}

} // verus!
