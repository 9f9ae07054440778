//! W3C `traceparent` propagation: the ids a request span carries.
use crate::header;
use crate::text;
use crate::text::{chars_of, same, split, trim};
use vstd::prelude::*;

verus! {

/// The caller's trace and the span the request belongs to.
#[derive(Debug, PartialEq, Eq)]
pub struct TraceContext {
    pub trace_id: String,
    pub parent_span_id: String,
}

/// An ASCII hexadecimal digit, of either case.
pub open spec fn hex_digit(c: char) -> bool {
    ('0' <= c && c <= '9') || ('a' <= c && c <= 'f') || ('A' <= c && c <= 'F')
}

/// `n` hexadecimal digits.
pub open spec fn hex_field(s: Seq<char>, n: nat) -> bool {
    s.len() == n && forall|i: int| 0 <= i < s.len() ==> hex_digit(#[trigger] s[i])
}

/// Nothing but zeros.
pub open spec fn all_zero(s: Seq<char>) -> bool {
    forall|i: int| 0 <= i < s.len() ==> #[trigger] s[i] == '0'
}

/// The trace id and parent span id in a `traceparent` value: at least four
/// `-`-separated fields (exactly four in version `00`), of which the version
/// is two hex digits but not `ff`, and the two ids are 32 and 16 hex digits
/// that are not all zero.
pub open spec fn trace_ids(value: Seq<char>) -> Option<(Seq<char>, Seq<char>)> {
    let fields = text::split_on(text::trimmed(value), '-');
    if fields.len() < 4 {
        None
    } else if fields[0] == "00"@ && fields.len() > 4 {
        None
    } else if !hex_field(fields[0], 2) || fields[0] == "ff"@ {
        None
    } else if !hex_field(fields[1], 32) || all_zero(fields[1]) {
        None
    } else if !hex_field(fields[2], 16) || all_zero(fields[2]) {
        None
    } else {
        Some((fields[1], fields[2]))
    }
}

/// Parse a W3C `traceparent` into the caller's trace and parent-span ids.
pub fn parse_traceparent(value: &str) -> (r: Option<TraceContext>)
    ensures
        match r {
            Some(ctx) => trace_ids(value@) == Some((ctx.trace_id@, ctx.parent_span_id@)),
            None => trace_ids(value@) is None,
        },
{
    let fields = split(trim(value), '-');
    let ghost views = text::split_on(text::trimmed(value@), '-');
    proof {
        assert(views.len() == fields@.len());
        assert forall|i: int| 0 <= i < fields@.len() implies views[i] == #[trigger] fields@[i]@ by {
            assert(fields@.map_values(|p: &str| p@)[i] == fields@[i]@);
        }
    }
    if fields.len() < 4 {
        return None;
    }
    let version = fields[0];
    let trace_id = fields[1];
    let parent_id = fields[2];
    if same(version, "00") && fields.len() > 4 {
        return None;
    }
    if !is_hex_of(version, 2) || same(version, "ff") {
        return None;
    }
    if !is_hex_of(trace_id, 32) || is_all_zero(trace_id) {
        return None;
    }
    if !is_hex_of(parent_id, 16) || is_all_zero(parent_id) {
        return None;
    }
    Some(TraceContext { trace_id: trace_id.to_owned(), parent_span_id: parent_id.to_owned() })
}

/// The trace a request belongs to, from the bytes of its `traceparent`
/// header. A value that is not visible ASCII counts as absent.
pub fn request_trace(header: Option<&[u8]>) -> (r: Option<TraceContext>)
    ensures
        ({
            let ids = match header {
                Some(bytes) => match header::text_of_header(bytes@) {
                    Some(value) => trace_ids(value),
                    None => None,
                },
                None => None,
            };
            match r {
                Some(ctx) => ids == Some((ctx.trace_id@, ctx.parent_span_id@)),
                None => ids is None,
            }
        }),
{
    match header {
        Some(bytes) => match header::header_text(bytes) {
            Some(value) => parse_traceparent(value.as_str()),
            None => None,
        },
        None => None,
    }
}

/// Whether `s` is exactly `n` hexadecimal digits.
fn is_hex_of(s: &str, n: usize) -> (r: bool)
    ensures
        r == hex_field(s@, n as nat),
{
    let cs = chars_of(s);
    if cs.len() != n {
        return false;
    }
    let mut i: usize = 0;
    while i < n
        invariant
            cs@ == s@,
            n == cs@.len(),
            i <= n,
            forall|j: int| 0 <= j < i ==> hex_digit(#[trigger] s@[j]),
        decreases n - i,
    {
        let c = cs[i];
        if !(('0' <= c && c <= '9') || ('a' <= c && c <= 'f') || ('A' <= c && c <= 'F')) {
            assert(!hex_digit(s@[i as int]));
            return false;
        }
        i += 1;
    }
    true
}

/// Whether `s` holds nothing but zeros.
fn is_all_zero(s: &str) -> (r: bool)
    ensures
        r == all_zero(s@),
{
    let cs = chars_of(s);
    let n: usize = cs.len();
    let mut i: usize = 0;
    while i < n
        invariant
            cs@ == s@,
            n == cs@.len(),
            i <= n,
            forall|j: int| 0 <= j < i ==> #[trigger] s@[j] == '0',
        decreases n - i,
    {
        if cs[i] != '0' {
            assert(s@[i as int] != '0');
            return false;
        }
        i += 1;
    }
    true
}

/// Hexadecimal digits, by code point.
pub proof fn hexadecimal_digits_by_code_point(c: char)
    ensures
        hex_digit(c) <==> {
            let n = c as u32;
            48 <= n <= 57 || 65 <= n <= 70 || 97 <= n <= 102
        },
{
}

/// The ids of a trace are the second and third of the fields between dashes,
/// 32 and 16 hexadecimal digits that are not all zero, behind a version of two
/// such digits that is not `ff` and, where it is `00`, with one field more and
/// no other.
pub proof fn trace_ids_are_the_second_and_third_field(
    value: Seq<char>,
    trace: Seq<char>,
    span: Seq<char>,
)
    ensures
        trace_ids(value) == Some((trace, span)) <==> {
            let fields = text::split_on(text::trimmed(value), '-');
            &&& fields.len() >= 4
            &&& fields[0] == "00"@ ==> fields.len() == 4
            &&& fields[0].len() == 2 && fields[0] != "ff"@
            &&& hex_digit(fields[0][0]) && hex_digit(fields[0][1])
            &&& fields[1] == trace && fields[2] == span
            &&& trace.len() == 32 && span.len() == 16
            &&& forall|i: int| 0 <= i < 32 ==> hex_digit(#[trigger] trace[i])
            &&& forall|i: int| 0 <= i < 16 ==> hex_digit(#[trigger] span[i])
            &&& exists|i: int| 0 <= i < 32 && #[trigger] trace[i] != '0'
            &&& exists|i: int| 0 <= i < 16 && #[trigger] span[i] != '0'
        },
{
    let fields = text::split_on(text::trimmed(value), '-');
    if fields.len() >= 4 && fields[0].len() == 2 && hex_digit(fields[0][0]) && hex_digit(
        fields[0][1],
    ) {
        assert(hex_field(fields[0], 2));
    }
}

/// What `request_trace` gives: the ids of the header, where it is one and
/// reads as text.
pub proof fn requests_belong_to_the_trace_of_their_header(
    header: Option<&[u8]>,
    r: Option<TraceContext>,
)
    requires
        call_ensures(request_trace, (header,), r),
    ensures
        header is None ==> r is None,
        header matches Some(bytes) ==> (header::text_of_header(bytes@) is None ==> r is None) && (
        header::text_of_header(bytes@) matches Some(value) ==> {
            &&& r is None <==> trace_ids(value) is None
            &&& r matches Some(ctx) ==> trace_ids(value) == Some(
                (ctx.trace_id@, ctx.parent_span_id@),
            )
        }),
        r matches Some(ctx) ==> ctx.trace_id@.len() == 32 && ctx.parent_span_id@.len() == 16,
{
    if let Some(bytes) = header {
        if let Some(value) = header::text_of_header(bytes@) {
            if let Some(ctx) = r {
                trace_ids_are_the_second_and_third_field(
                    value,
                    ctx.trace_id@,
                    ctx.parent_span_id@,
                );
            }
        }
    }
}

} // verus!
