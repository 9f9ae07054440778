//! Where the members of a JSON object stand in its text, and how a text is
//! put together from its values and what stands between them.
use crate::json;
use vstd::prelude::*;
use vstd::utf8::*;

verus! {

/// The byte `"`.
pub const QUOTE: u8 = 0x22;

/// The byte `\`.
pub const BACKSLASH: u8 = 0x5c;

/// The byte `,`.
pub const COMMA: u8 = 0x2c;

/// The byte `:`.
pub const COLON: u8 = 0x3a;

/// The byte `{`.
pub const OPEN_BRACE: u8 = 0x7b;

/// The byte `}`.
pub const CLOSE_BRACE: u8 = 0x7d;

/// The byte `[`.
pub const OPEN_BRACKET: u8 = 0x5b;

/// The byte `]`.
pub const CLOSE_BRACKET: u8 = 0x5d;

/// White space as JSON has it.
pub open spec fn is_space(b: u8) -> bool {
    b == 0x20 || b == 0x0a || b == 0x09 || b == 0x0d
}

/// The first place from `i` on that holds no white space.
pub open spec fn skip_space(s: Seq<u8>, i: int) -> int
    decreases s.len() - i,
{
    if 0 <= i < s.len() && is_space(s[i]) {
        skip_space(s, i + 1)
    } else {
        i
    }
}

/// Behind the quote that closes a string whose text goes on at `i`.
pub open spec fn string_end(s: Seq<u8>, i: int) -> Option<int>
    decreases s.len() - i,
{
    if !(0 <= i < s.len()) {
        None
    } else if s[i] == QUOTE {
        Some(i + 1)
    } else if s[i] == BACKSLASH && i + 1 < s.len() {
        string_end(s, i + 2)
    } else {
        string_end(s, i + 1)
    }
}

/// Whether a byte can stand right behind a number or a word.
pub open spec fn ends_scalar(b: u8) -> bool {
    is_space(b) || b == COMMA || b == CLOSE_BRACE || b == CLOSE_BRACKET
}

/// Behind the number or word that goes on at `i`.
pub open spec fn scalar_end(s: Seq<u8>, i: int) -> int
    decreases s.len() - i,
{
    if 0 <= i < s.len() && !ends_scalar(s[i]) {
        scalar_end(s, i + 1)
    } else {
        i
    }
}

/// Behind the bracket that closes the outermost of `depth` open arrays and
/// objects, at `i` inside of the innermost.
pub open spec fn nested_end(s: Seq<u8>, i: int, depth: int) -> Option<int>
    decreases s.len() - i,
{
    if !(0 <= i < s.len()) {
        None
    } else if s[i] == QUOTE {
        proof {
            lemma_string_end(s, i + 1);
        }
        match string_end(s, i + 1) {
            Some(j) => nested_end(s, j, depth),
            None => None,
        }
    } else if s[i] == OPEN_BRACE || s[i] == OPEN_BRACKET {
        nested_end(s, i + 1, depth + 1)
    } else if s[i] == CLOSE_BRACE || s[i] == CLOSE_BRACKET {
        if depth <= 1 {
            Some(i + 1)
        } else {
            nested_end(s, i + 1, depth - 1)
        }
    } else {
        nested_end(s, i + 1, depth)
    }
}

/// Behind the value that begins at `i`.
pub open spec fn value_end(s: Seq<u8>, i: int) -> Option<int> {
    if !(0 <= i < s.len()) {
        None
    } else if s[i] == QUOTE {
        string_end(s, i + 1)
    } else if s[i] == OPEN_BRACE || s[i] == OPEN_BRACKET {
        nested_end(s, i + 1, 1)
    } else if scalar_end(s, i) > i {
        Some(scalar_end(s, i))
    } else {
        None
    }
}

/// Where a member of an object stands: its key, quotes and all, from `key` to
/// `key_end`, its value from `start` to `end`.
pub struct Span {
    pub key: int,
    pub key_end: int,
    pub start: int,
    pub end: int,
}

/// The member whose key begins at `i`.
pub open spec fn member_at(s: Seq<u8>, i: int) -> Option<Span> {
    if !(0 <= i < s.len() && s[i] == QUOTE) {
        None
    } else {
        match string_end(s, i + 1) {
            None => None,
            Some(key_end) => {
                let colon = skip_space(s, key_end);
                if !(colon < s.len() && s[colon] == COLON) {
                    None
                } else {
                    let start = skip_space(s, colon + 1);
                    match value_end(s, start) {
                        None => None,
                        Some(end) => Some(Span { key: i, key_end, start, end }),
                    }
                }
            },
        }
    }
}

/// The members from the one whose key begins at `i` to the closing brace.
pub open spec fn members_from(s: Seq<u8>, i: int) -> Option<Seq<Span>>
    decreases s.len() - i,
{
    match member_at(s, i) {
        None => None,
        Some(m) => {
            let next = skip_space(s, m.end);
            if !(next < s.len()) {
                None
            } else if s[next] == CLOSE_BRACE {
                Some(seq![m])
            } else if s[next] == COMMA {
                proof {
                    lemma_member_at(s, i);
                    lemma_skip_space(s, m.end);
                    lemma_skip_space(s, next + 1);
                }
                match members_from(s, skip_space(s, next + 1)) {
                    Some(rest) => Some(seq![m] + rest),
                    None => None,
                }
            } else {
                None
            }
        },
    }
}

/// Behind the brace that opens the object.
pub open spec fn opening(s: Seq<u8>) -> int {
    skip_space(s, 0) + 1
}

/// The members of the object that a text holds, in order, each key as often
/// as it occurs.
pub open spec fn members(s: Seq<u8>) -> Option<Seq<Span>> {
    let first = skip_space(s, opening(s));
    if !(opening(s) <= s.len() && s[opening(s) - 1] == OPEN_BRACE && first < s.len()) {
        None
    } else if s[first] == CLOSE_BRACE {
        Some(seq![])
    } else {
        members_from(s, first)
    }
}

/// White space is skipped forward, to the end at most.
pub proof fn lemma_skip_space(s: Seq<u8>, i: int)
    ensures
        i <= skip_space(s, i),
        i <= s.len() ==> skip_space(s, i) <= s.len(),
    decreases s.len() - i,
{
    if 0 <= i < s.len() && is_space(s[i]) {
        lemma_skip_space(s, i + 1);
    }
}

/// A string ends behind where it goes on.
pub proof fn lemma_string_end(s: Seq<u8>, i: int)
    ensures
        string_end(s, i) matches Some(j) ==> i < j <= s.len(),
    decreases s.len() - i,
{
    if 0 <= i < s.len() && s[i] != QUOTE {
        lemma_string_end(s, i + 1);
        if i + 1 < s.len() {
            lemma_string_end(s, i + 2);
        }
    }
}

/// A number or word ends no sooner than where it goes on.
pub proof fn lemma_scalar_end(s: Seq<u8>, i: int)
    ensures
        i <= scalar_end(s, i),
        i <= s.len() ==> scalar_end(s, i) <= s.len(),
    decreases s.len() - i,
{
    if 0 <= i < s.len() && !ends_scalar(s[i]) {
        lemma_scalar_end(s, i + 1);
    }
}

/// An array or object ends behind where it goes on.
pub proof fn lemma_nested_end(s: Seq<u8>, i: int, depth: int)
    ensures
        nested_end(s, i, depth) matches Some(j) ==> i < j <= s.len(),
    decreases s.len() - i,
{
    if 0 <= i < s.len() {
        if s[i] == QUOTE {
            lemma_string_end(s, i + 1);
            if let Some(j) = string_end(s, i + 1) {
                lemma_nested_end(s, j, depth);
            }
        } else {
            lemma_nested_end(s, i + 1, depth + 1);
            lemma_nested_end(s, i + 1, depth - 1);
            lemma_nested_end(s, i + 1, depth);
        }
    }
}

/// A value is not empty.
pub proof fn lemma_value_end(s: Seq<u8>, i: int)
    ensures
        value_end(s, i) matches Some(j) ==> 0 <= i < j <= s.len(),
{
    lemma_string_end(s, i + 1);
    lemma_nested_end(s, i + 1, 1);
    lemma_scalar_end(s, i);
}

/// A key stands in front of its value.
pub proof fn lemma_member_at(s: Seq<u8>, i: int)
    ensures
        member_at(s, i) matches Some(m) ==> 0 <= i == m.key < m.key_end < m.start < m.end
            <= s.len(),
{
    lemma_string_end(s, i + 1);
    if let Some(key_end) = string_end(s, i + 1) {
        lemma_skip_space(s, key_end);
        let colon = skip_space(s, key_end);
        lemma_skip_space(s, colon + 1);
        lemma_value_end(s, skip_space(s, colon + 1));
    }
}

/// Whether the members stand one behind the other, from `from` on.
pub open spec fn in_order(ms: Seq<Span>, from: int, len: int) -> bool {
    &&& forall|i: int|
        0 <= i < ms.len() ==> from <= (#[trigger] ms[i]).key < ms[i].key_end < ms[i].start
            < ms[i].end <= len
    &&& forall|i: int, j: int|
        0 <= i < j < ms.len() ==> (#[trigger] ms[i]).end < (#[trigger] ms[j]).key
}

proof fn lemma_members_from(s: Seq<u8>, i: int)
    ensures
        members_from(s, i) matches Some(ms) ==> ms.len() > 0 && in_order(ms, i, s.len() as int),
    decreases s.len() - i,
{
    lemma_member_at(s, i);
    if let Some(m) = member_at(s, i) {
        let next = skip_space(s, m.end);
        lemma_skip_space(s, m.end);
        if next < s.len() && s[next] == COMMA {
            let start = skip_space(s, next + 1);
            lemma_skip_space(s, next + 1);
            lemma_members_from(s, start);
            if let Some(rest) = members_from(s, start) {
                let ms = seq![m] + rest;
                assert forall|i: int, j: int| 0 <= i < j < ms.len() implies (#[trigger] ms[i]).end
                    < (#[trigger] ms[j]).key by {
                    assert(ms[j] == rest[j - 1]);
                    if i > 0 {
                        assert(ms[i] == rest[i - 1]);
                    }
                }
            }
        }
    }
}

/// The members of an object stand one behind the other, behind its opening
/// brace.
pub proof fn members_are_in_order(s: Seq<u8>)
    ensures
        members(s) matches Some(ms) ==> 1 <= opening(s) <= s.len() && in_order(
            ms,
            opening(s),
            s.len() as int,
        ),
{
    lemma_skip_space(s, 0);
    lemma_skip_space(s, opening(s));
    lemma_members_from(s, skip_space(s, opening(s)));
}

/// A member's place, as `Span` has it.
#[derive(Debug)]
pub struct Member {
    pub key: usize,
    pub key_end: usize,
    pub start: usize,
    pub end: usize,
}

impl View for Member {
    type V = Span;

    open spec fn view(&self) -> Span {
        Span {
            key: self.key as int,
            key_end: self.key_end as int,
            start: self.start as int,
            end: self.end as int,
        }
    }
}

/// The places of a list of members.
pub open spec fn spans(ms: Seq<Member>) -> Seq<Span> {
    ms.map_values(|m: Member| m@)
}

fn past_space(s: &[u8], from: usize) -> (r: usize)
    requires
        from <= s@.len(),
    ensures
        r == skip_space(s@, from as int),
        from <= r <= s@.len(),
{
    let mut i: usize = from;
    while i < s.len() && (s[i] == 0x20 || s[i] == 0x0a || s[i] == 0x09 || s[i] == 0x0d)
        invariant
            from <= i <= s@.len(),
            skip_space(s@, from as int) == skip_space(s@, i as int),
        decreases s@.len() - i,
    {
        i += 1;
    }
    i
}

fn past_string(s: &[u8], from: usize) -> (r: Option<usize>)
    requires
        from <= s@.len(),
    ensures
        match r {
            Some(j) => string_end(s@, from as int) == Some(j as int) && from < j <= s@.len(),
            None => string_end(s@, from as int) is None,
        },
{
    let mut i: usize = from;
    while i < s.len()
        invariant
            from <= i <= s@.len(),
            string_end(s@, from as int) == string_end(s@, i as int),
        decreases s@.len() - i,
    {
        if s[i] == QUOTE {
            return Some(i + 1);
        }
        if s[i] == BACKSLASH && i < s.len() - 1 {
            i += 2;
        } else {
            i += 1;
        }
    }
    None
}

fn past_scalar(s: &[u8], from: usize) -> (r: usize)
    requires
        from <= s@.len(),
    ensures
        r == scalar_end(s@, from as int),
        from <= r <= s@.len(),
{
    let mut i: usize = from;
    while i < s.len()
        invariant
            from <= i <= s@.len(),
            scalar_end(s@, from as int) == scalar_end(s@, i as int),
        decreases s@.len() - i,
    {
        let b = s[i];
        if b == 0x20 || b == 0x0a || b == 0x09 || b == 0x0d || b == COMMA || b == CLOSE_BRACE || b
            == CLOSE_BRACKET {
            return i;
        }
        i += 1;
    }
    i
}

fn past_nested(s: &[u8], from: usize) -> (r: Option<usize>)
    requires
        0 < from <= s@.len(),
    ensures
        match r {
            Some(j) => nested_end(s@, from as int, 1) == Some(j as int) && from < j <= s@.len(),
            None => nested_end(s@, from as int, 1) is None,
        },
{
    let mut i: usize = from;
    let mut depth: usize = 1;
    while i < s.len()
        invariant
            0 < from <= i <= s@.len(),
            1 <= depth <= i - from + 1,
            nested_end(s@, from as int, 1) == nested_end(s@, i as int, depth as int),
        decreases s@.len() - i,
    {
        let b = s[i];
        if b == QUOTE {
            match past_string(s, i + 1) {
                Some(j) => {
                    i = j;
                },
                None => {
                    return None;
                },
            }
        } else if b == OPEN_BRACE || b == OPEN_BRACKET {
            depth += 1;
            i += 1;
        } else if b == CLOSE_BRACE || b == CLOSE_BRACKET {
            if depth == 1 {
                return Some(i + 1);
            }
            depth -= 1;
            i += 1;
        } else {
            i += 1;
        }
    }
    None
}

fn past_value(s: &[u8], from: usize) -> (r: Option<usize>)
    requires
        from <= s@.len(),
    ensures
        match r {
            Some(j) => value_end(s@, from as int) == Some(j as int) && from < j <= s@.len(),
            None => value_end(s@, from as int) is None,
        },
{
    if from >= s.len() {
        return None;
    }
    let b = s[from];
    if b == QUOTE {
        past_string(s, from + 1)
    } else if b == OPEN_BRACE || b == OPEN_BRACKET {
        past_nested(s, from + 1)
    } else {
        let end: usize = past_scalar(s, from);
        if end > from {
            Some(end)
        } else {
            None
        }
    }
}

fn find_member(s: &[u8], at: usize) -> (r: Option<Member>)
    requires
        at <= s@.len(),
    ensures
        match r {
            Some(m) => member_at(s@, at as int) == Some(m@) && at < m.end <= s@.len(),
            None => member_at(s@, at as int) is None,
        },
{
    proof {
        lemma_member_at(s@, at as int);
    }
    if at >= s.len() || s[at] != QUOTE {
        return None;
    }
    let key_end: usize = match past_string(s, at + 1) {
        Some(j) => j,
        None => {
            return None;
        },
    };
    let colon: usize = past_space(s, key_end);
    if colon >= s.len() || s[colon] != COLON {
        return None;
    }
    let start: usize = past_space(s, colon + 1);
    match past_value(s, start) {
        Some(end) => Some(Member { key: at, key_end, start, end }),
        None => None,
    }
}

/// Finds the members of the object that a text holds. Of the values it reads
/// no more than their strings and brackets: whether they are JSON is for a
/// parser to say.
pub fn find_members(s: &[u8]) -> (r: Option<Vec<Member>>)
    ensures
        match r {
            Some(ms) => members(s@) == Some(spans(ms@)),
            None => members(s@) is None,
        },
{
    let brace: usize = past_space(s, 0);
    if brace >= s.len() || s[brace] != OPEN_BRACE {
        return None;
    }
    let mut at: usize = past_space(s, brace + 1);
    if at >= s.len() {
        return None;
    }
    let mut found: Vec<Member> = Vec::new();
    if s[at] == CLOSE_BRACE {
        assert(spans(found@) =~= seq![]);
        return Some(found);
    }
    loop
        invariant
            at <= s@.len(),
            members(s@) == match members_from(s@, at as int) {
                Some(rest) => Some(spans(found@) + rest),
                None => None,
            },
        decreases s@.len() - at,
    {
        let ghost before = found@;
        let m = match find_member(s, at) {
            Some(m) => m,
            None => {
                return None;
            },
        };
        let ghost span = m@;
        let next: usize = past_space(s, m.end);
        found.push(m);
        assert(spans(found@) =~= spans(before).push(span));
        if next >= s.len() {
            return None;
        }
        if s[next] == CLOSE_BRACE {
            assert(spans(found@) =~= spans(before) + seq![span]);
            return Some(found);
        }
        if s[next] != COMMA {
            return None;
        }
        let after: usize = past_space(s, next + 1);
        assert(members_from(s@, after as int) matches Some(rest) ==> spans(found@) + rest
            =~= spans(before) + (seq![span] + rest));
        at = after;
    }
}

/// Finds the place behind the opening brace of a text with members.
pub(crate) fn find_opening(s: &[u8]) -> (r: usize)
    requires
        members(s@) is Some,
    ensures
        r == opening(s@),
{
    proof {
        members_are_in_order(s@);
        assert(s.len() == s@.len());
    }
    past_space(s, 0) + 1
}

/// A text with its values taken out: what stands up to and with the opening
/// brace, in front of each value, and behind the last.
#[verifier::ext_equal]
pub struct Layout {
    pub open: Seq<u8>,
    pub leads: Seq<Seq<u8>>,
    pub tail: Seq<u8>,
}

/// Values, each behind its lead.
pub open spec fn woven(leads: Seq<Seq<u8>>, values: Seq<Seq<u8>>) -> Seq<u8>
    decreases leads.len(),
{
    if leads.len() == 0 {
        seq![]
    } else {
        woven(leads.drop_last(), values.drop_last()) + leads.last() + values.last()
    }
}

/// A text with values put in.
pub open spec fn weave(layout: Layout, values: Seq<Seq<u8>>) -> Seq<u8> {
    layout.open + woven(layout.leads, values) + layout.tail
}

/// Where the lead of a member begins: behind the value in front of it, or
/// behind the opening brace.
pub open spec fn lead_start(s: Seq<u8>, ms: Seq<Span>, i: int) -> int {
    if i == 0 {
        opening(s)
    } else {
        ms[i - 1].end
    }
}

/// How a text with these members is laid out.
pub open spec fn layout_of(s: Seq<u8>, ms: Seq<Span>) -> Layout {
    Layout {
        open: s.take(opening(s)),
        leads: Seq::new(ms.len(), |i: int| s.subrange(lead_start(s, ms, i), ms[i].start)),
        tail: s.skip(lead_start(s, ms, ms.len() as int)),
    }
}

/// What is written in front of the value of a field that is added behind
/// `n` others.
pub open spec fn added_lead(n: int, key: Seq<char>) -> Seq<u8> {
    encode_utf8(
        (if n == 0 {
            seq![]
        } else {
            seq![',']
        }) + json::quoted(key) + seq![':'],
    )
}

/// A layout with fields added behind the last.
pub open spec fn extended(layout: Layout, keys: Seq<Seq<char>>) -> Layout {
    Layout {
        open: layout.open,
        leads: layout.leads + Seq::new(
            keys.len(),
            |i: int| added_lead(layout.leads.len() + i, keys[i]),
        ),
        tail: layout.tail,
    }
}

/// The layout of an object without fields or white space.
pub open spec fn bare() -> Layout {
    Layout { open: encode_utf8(seq!['{']), leads: seq![], tail: encode_utf8(seq!['}']) }
}

/// Adding fields at once is adding them one after the other.
pub proof fn extensions_add_up(layout: Layout, a: Seq<Seq<char>>, b: Seq<Seq<char>>)
    ensures
        extended(extended(layout, a), b) == extended(layout, a + b),
        extended(layout, seq![]) == layout,
{
    assert(extended(extended(layout, a), b) =~= extended(layout, a + b));
    assert(extended(layout, seq![]) =~= layout);
}

/// The values of a text at the places of its members.
pub open spec fn values_at(s: Seq<u8>, ms: Seq<Span>) -> Seq<Seq<u8>> {
    Seq::new(ms.len(), |i: int| s.subrange(ms[i].start, ms[i].end))
}

/// A text with the bytes from `a` to `b` replaced.
pub open spec fn spliced(s: Seq<u8>, a: int, b: int, new: Seq<u8>) -> Seq<u8> {
    s.take(a) + new + s.skip(b)
}

/// What the first `n` members of a text weave to, behind its opening brace.
spec fn head(s: Seq<u8>, ms: Seq<Span>, values: Seq<Seq<u8>>, n: int) -> Seq<u8> {
    s.take(opening(s)) + woven(layout_of(s, ms).leads.take(n), values.take(n))
}

/// One more member weaves to its lead and its value.
proof fn lemma_head_step(s: Seq<u8>, ms: Seq<Span>, values: Seq<Seq<u8>>, i: int)
    requires
        members(s) == Some(ms),
        values.len() == ms.len(),
        0 <= i < ms.len(),
    ensures
        head(s, ms, values, i + 1) == head(s, ms, values, i) + s.subrange(
            lead_start(s, ms, i),
            ms[i].start,
        ) + values[i],
        0 <= opening(s) <= lead_start(s, ms, i) <= ms[i].start < ms[i].end <= s.len(),
        lead_start(s, ms, i + 1) == ms[i].end,
{
    members_are_in_order(s);
    let leads = layout_of(s, ms).leads;
    assert(leads.take(i + 1).drop_last() =~= leads.take(i));
    assert(values.take(i + 1).drop_last() =~= values.take(i));
    assert(leads.take(i + 1).last() == s.subrange(lead_start(s, ms, i), ms[i].start));
    assert(values.take(i + 1).last() == values[i]);
    assert(head(s, ms, values, i + 1) =~= head(s, ms, values, i) + s.subrange(
        lead_start(s, ms, i),
        ms[i].start,
    ) + values[i]);
    if i > 0 {
        assert(ms[i - 1].end < ms[i].key);
    }
}

/// Members with their own values weave to the bytes they stand in.
proof fn lemma_head_run(s: Seq<u8>, ms: Seq<Span>, values: Seq<Seq<u8>>, a: int, n: int)
    requires
        members(s) == Some(ms),
        values.len() == ms.len(),
        0 <= a <= n <= ms.len(),
        forall|i: int| a <= i < n ==> #[trigger] values[i] == values_at(s, ms)[i],
    ensures
        head(s, ms, values, n) == head(s, ms, values, a) + s.subrange(
            lead_start(s, ms, a),
            lead_start(s, ms, n),
        ),
        0 <= lead_start(s, ms, a) <= lead_start(s, ms, n) <= s.len(),
    decreases n,
{
    members_are_in_order(s);
    if n == a {
        assert(s.subrange(lead_start(s, ms, a), lead_start(s, ms, n)) =~= seq![]);
        assert(head(s, ms, values, n) =~= head(s, ms, values, a) + s.subrange(
            lead_start(s, ms, a),
            lead_start(s, ms, n),
        ));
    } else {
        let i = n - 1;
        lemma_head_run(s, ms, values, a, i);
        lemma_head_step(s, ms, values, i);
        assert(values[i] == s.subrange(ms[i].start, ms[i].end));
        let from = lead_start(s, ms, a);
        let mid = lead_start(s, ms, i);
        assert(s.subrange(from, mid) + s.subrange(mid, ms[i].start) + values[i] =~= s.subrange(
            from,
            ms[i].end,
        ));
        assert(head(s, ms, values, n) =~= head(s, ms, values, a) + (s.subrange(from, mid)
            + s.subrange(mid, ms[i].start) + values[i]));
    }
}

/// The members in front of the first replaced one, and that one.
proof fn lemma_head_first(s: Seq<u8>, ms: Seq<Span>, values: Seq<Seq<u8>>, k: int)
    requires
        members(s) == Some(ms),
        values.len() == ms.len(),
        0 <= k < ms.len(),
        forall|i: int| 0 <= i < k ==> #[trigger] values[i] == values_at(s, ms)[i],
    ensures
        head(s, ms, values, k + 1) == s.take(ms[k].start) + values[k],
        0 <= ms[k].start < ms[k].end == lead_start(s, ms, k + 1) <= s.len(),
{
    lemma_head_run(s, ms, values, 0, k);
    lemma_head_step(s, ms, values, k);
    assert(head(s, ms, values, 0) =~= s.take(opening(s)));
    let mid = lead_start(s, ms, k);
    assert(s.take(opening(s)) + s.subrange(opening(s), mid) + s.subrange(mid, ms[k].start)
        =~= s.take(ms[k].start));
}

/// All members weave to the whole text but for its tail.
proof fn lemma_head_whole(s: Seq<u8>, ms: Seq<Span>, values: Seq<Seq<u8>>)
    requires
        values.len() == ms.len(),
    ensures
        weave(layout_of(s, ms), values) == head(s, ms, values, ms.len() as int) + s.skip(
            lead_start(s, ms, ms.len() as int),
        ),
{
    let n = ms.len() as int;
    assert(layout_of(s, ms).leads.take(n) =~= layout_of(s, ms).leads);
    assert(values.take(n) =~= values);
}

/// A text woven from its own values is that text.
pub proof fn own_values_weave_to_the_text(s: Seq<u8>, ms: Seq<Span>)
    requires
        members(s) == Some(ms),
    ensures
        weave(layout_of(s, ms), values_at(s, ms)) == s,
{
    let n = ms.len() as int;
    let values = values_at(s, ms);
    members_are_in_order(s);
    lemma_head_run(s, ms, values, 0, n);
    lemma_head_whole(s, ms, values);
    assert(head(s, ms, values, 0) =~= s.take(opening(s)));
    let at = lead_start(s, ms, n);
    assert(s.take(opening(s)) + s.subrange(opening(s), at) + s.skip(at) =~= s);
}

/// Weaving with one value replaced changes the bytes of that value and no
/// others.
pub proof fn one_value_is_spliced(s: Seq<u8>, ms: Seq<Span>, k: int, new: Seq<u8>)
    requires
        members(s) == Some(ms),
        0 <= k < ms.len(),
    ensures
        weave(layout_of(s, ms), values_at(s, ms).update(k, new)) == spliced(
            s,
            ms[k].start,
            ms[k].end,
            new,
        ),
{
    let n = ms.len() as int;
    let values = values_at(s, ms).update(k, new);
    lemma_head_first(s, ms, values, k);
    lemma_head_run(s, ms, values, k + 1, n);
    lemma_head_whole(s, ms, values);
    let at = lead_start(s, ms, n);
    assert(s.subrange(ms[k].end, at) + s.skip(at) =~= s.skip(ms[k].end));
    assert(weave(layout_of(s, ms), values) =~= s.take(ms[k].start) + new + (s.subrange(
        ms[k].end,
        at,
    ) + s.skip(at)));
}

/// Weaving with two values replaced changes the bytes of those two and no
/// others.
pub proof fn two_values_are_spliced(
    s: Seq<u8>,
    ms: Seq<Span>,
    k: int,
    first: Seq<u8>,
    l: int,
    second: Seq<u8>,
)
    requires
        members(s) == Some(ms),
        0 <= k < l < ms.len(),
    ensures
        weave(layout_of(s, ms), values_at(s, ms).update(k, first).update(l, second)) == spliced(
            spliced(s, ms[l].start, ms[l].end, second),
            ms[k].start,
            ms[k].end,
            first,
        ),
{
    let n = ms.len() as int;
    let values = values_at(s, ms).update(k, first).update(l, second);
    lemma_head_first(s, ms, values, k);
    lemma_head_run(s, ms, values, k + 1, l);
    lemma_head_step(s, ms, values, l);
    lemma_head_run(s, ms, values, l + 1, n);
    lemma_head_whole(s, ms, values);
    let mid = lead_start(s, ms, l);
    let at = lead_start(s, ms, n);
    let left = s.subrange(ms[k].end, mid) + s.subrange(mid, ms[l].start);
    let right = s.subrange(ms[l].end, at) + s.skip(at);
    assert(left =~= s.subrange(ms[k].end, ms[l].start));
    assert(right =~= s.skip(ms[l].end));
    let inner = spliced(s, ms[l].start, ms[l].end, second);
    assert(inner.take(ms[k].start) =~= s.take(ms[k].start));
    assert(inner.skip(ms[k].end) =~= s.subrange(ms[k].end, ms[l].start) + second + s.skip(
        ms[l].end,
    ));
    lemma_regroup(
        s.take(ms[k].start) + first,
        s.subrange(ms[k].end, mid),
        s.subrange(mid, ms[l].start),
        second,
        s.subrange(ms[l].end, at),
        s.skip(at),
    );
}

/// Concatenation is associative.
proof fn lemma_regroup(
    a: Seq<u8>,
    b: Seq<u8>,
    c: Seq<u8>,
    d: Seq<u8>,
    e: Seq<u8>,
    f: Seq<u8>,
)
    ensures
        a + b + c + d + e + f == a + ((b + c) + d + (e + f)),
{
    assert(a + b + c + d + e + f =~= a + ((b + c) + d + (e + f)));
}

/// Weaving with one value replaced and one field added changes the bytes of
/// that value, puts the new field right behind the last value, and changes no
/// other byte.
pub proof fn one_value_is_spliced_and_one_added(
    s: Seq<u8>,
    ms: Seq<Span>,
    k: int,
    first: Seq<u8>,
    key: Seq<char>,
    second: Seq<u8>,
)
    requires
        members(s) == Some(ms),
        0 <= k < ms.len(),
    ensures
        weave(
            extended(layout_of(s, ms), seq![key]),
            values_at(s, ms).update(k, first).push(second),
        ) == spliced(
            spliced(s, ms.last().end, ms.last().end, added_lead(ms.len() as int, key) + second),
            ms[k].start,
            ms[k].end,
            first,
        ),
{
    let n = ms.len() as int;
    let layout = layout_of(s, ms);
    let longer = extended(layout, seq![key]);
    let values = values_at(s, ms).update(k, first);
    lemma_head_first(s, ms, values, k);
    lemma_head_run(s, ms, values, k + 1, n);
    lemma_head_whole(s, ms, values);
    assert(longer.leads.drop_last() =~= layout.leads);
    assert(values.push(second).drop_last() =~= values);
    assert(layout.leads.take(n) =~= layout.leads);
    assert(values.take(n) =~= values);
    let lead = added_lead(n, key);
    assert(longer.leads.last() == lead);
    let at = ms.last().end;
    let inner = spliced(s, at, at, lead + second);
    assert(inner.take(ms[k].start) =~= s.take(ms[k].start));
    let mid = s.subrange(ms[k].end, at);
    assert(inner.skip(ms[k].end) =~= mid + lead + second + s.skip(at));
    assert(weave(longer, values.push(second)) =~= head(s, ms, values, n) + (lead + second
        + s.skip(at)));
    assert(head(s, ms, values, n) + (lead + second + s.skip(at)) =~= s.take(ms[k].start) + first
        + (mid + lead + second + s.skip(at)));
}

/// White space is space, line feed, tab and carriage return; it is skipped to
/// the first byte that is none of them.
pub proof fn white_space_is_skipped(s: Seq<u8>, i: int)
    requires
        0 <= i <= s.len(),
    ensures
        i <= skip_space(s, i) <= s.len(),
        forall|j: int|
            i <= j < skip_space(s, i) ==> #[trigger] s[j] == 32 || s[j] == 10 || s[j] == 9 || s[j]
                == 13,
        skip_space(s, i) < s.len() ==> {
            let b = s[skip_space(s, i)];
            b != 32 && b != 10 && b != 9 && b != 13
        },
    decreases s.len() - i,
{
    if i < s.len() && is_space(s[i]) {
        white_space_is_skipped(s, i + 1);
    }
}

/// A string ends behind its first quote that no backslash stands in front of;
/// a backslash takes the byte behind it along.
pub proof fn strings_end_at_their_first_bare_quote(s: Seq<u8>, i: int)
    ensures
        !(0 <= i < s.len()) ==> string_end(s, i) is None,
        0 <= i < s.len() && s[i] == 0x22 ==> string_end(s, i) == Some(i + 1),
        0 <= i < s.len() - 1 && s[i] == 0x5c ==> string_end(s, i) == string_end(s, i + 2),
        0 <= i < s.len() && s[i] != 0x22 && s[i] != 0x5c ==> string_end(s, i) == string_end(
            s,
            i + 1,
        ),
        string_end(s, i) matches Some(j) ==> i < j <= s.len() && s[j - 1] == 0x22,
    decreases s.len() - i,
{
    if 0 <= i < s.len() && s[i] != QUOTE {
        strings_end_at_their_first_bare_quote(s, i + 1);
        if i + 1 < s.len() {
            strings_end_at_their_first_bare_quote(s, i + 2);
        }
    }
}

/// An array or object ends behind the bracket that closes the outermost:
/// brackets open and close, strings are stepped over whole, and no other byte
/// counts.
pub proof fn brackets_close_what_they_open(s: Seq<u8>, i: int, depth: int)
    requires
        0 <= i < s.len(),
        depth >= 1,
    ensures
        s[i] == 0x22 && string_end(s, i + 1) is Some ==> nested_end(s, i, depth) == nested_end(
            s,
            string_end(s, i + 1)->0,
            depth,
        ),
        s[i] == 0x22 && string_end(s, i + 1) is None ==> nested_end(s, i, depth) is None,
        s[i] == 0x7b || s[i] == 0x5b ==> nested_end(s, i, depth) == nested_end(s, i + 1, depth + 1),
        (s[i] == 0x7d || s[i] == 0x5d) && depth == 1 ==> nested_end(s, i, depth) == Some(i + 1),
        (s[i] == 0x7d || s[i] == 0x5d) && depth > 1 ==> nested_end(s, i, depth) == nested_end(
            s,
            i + 1,
            depth - 1,
        ),
        s[i] != 0x22 && s[i] != 0x7b && s[i] != 0x5b && s[i] != 0x7d && s[i] != 0x5d ==> nested_end(
            s,
            i,
            depth,
        ) == nested_end(s, i + 1, depth),
{
}

/// A number or word goes on to the first white space, comma or closing
/// bracket.
pub proof fn words_end_at_a_delimiter(s: Seq<u8>, i: int)
    requires
        0 <= i < s.len(),
    ensures
        ({
            let b = s[i];
            let ends = b == 32 || b == 10 || b == 9 || b == 13 || b == 0x2c || b == 0x7d || b
                == 0x5d;
            scalar_end(s, i) == if ends {
                i
            } else {
                scalar_end(s, i + 1)
            }
        }),
        scalar_end(s, s.len() as int) == s.len(),
{
}

/// A value is a string, an array, an object, or else a number or word.
pub proof fn values_end_by_their_first_byte(s: Seq<u8>, i: int)
    requires
        0 <= i < s.len(),
    ensures
        s[i] == 0x22 ==> value_end(s, i) == string_end(s, i + 1),
        s[i] == 0x7b || s[i] == 0x5b ==> value_end(s, i) == nested_end(s, i + 1, 1),
        s[i] != 0x22 && s[i] != 0x7b && s[i] != 0x5b ==> value_end(s, i) == if scalar_end(s, i)
            > i {
            Some(scalar_end(s, i))
        } else {
            None
        },
{
}

/// Whether nothing but white space and one byte `b` stands from `i` to `j`.
pub open spec fn separates(s: Seq<u8>, i: int, j: int, b: u8) -> bool {
    exists|k: int|
        {
            &&& i <= k < j
            &&& #[trigger] s[k] == b
            &&& forall|n: int| i <= n < j && n != k ==> is_space(#[trigger] s[n])
        }
}

proof fn lemma_separated(s: Seq<u8>, i: int, k: int)
    requires
        0 <= i <= s.len(),
        k == skip_space(s, i),
        k < s.len(),
    ensures
        separates(s, i, skip_space(s, k + 1), s[k]),
        k < skip_space(s, k + 1) <= s.len(),
{
    white_space_is_skipped(s, i);
    white_space_is_skipped(s, k + 1);
    let j = skip_space(s, k + 1);
    assert(s[k] == s[k]);
    assert forall|n: int| i <= n < j && n != k implies is_space(#[trigger] s[n]) by {}
}

proof fn lemma_members_separated(s: Seq<u8>, i: int)
    requires
        0 <= i <= s.len(),
    ensures
        members_from(s, i) matches Some(ms) ==> {
            &&& ms.len() > 0 && ms[0].key == i
            &&& forall|n: int|
                0 <= n < ms.len() ==> {
                    &&& s[(#[trigger] ms[n]).key] == 0x22
                    &&& string_end(s, ms[n].key + 1) == Some(ms[n].key_end)
                    &&& separates(s, ms[n].key_end, ms[n].start, 0x3a)
                    &&& value_end(s, ms[n].start) == Some(ms[n].end)
                }
            &&& forall|n: int|
                0 <= n < ms.len() - 1 ==> separates(s, (#[trigger] ms[n]).end, ms[n + 1].key, 0x2c)
            &&& 0 <= ms.last().end <= skip_space(s, ms.last().end) < s.len() && s[skip_space(
                s,
                ms.last().end,
            )] == 0x7d
        },
    decreases s.len() - i,
{
    lemma_member_at(s, i);
    if let Some(m) = member_at(s, i) {
        let colon = skip_space(s, m.key_end);
        lemma_string_end(s, i + 1);
        lemma_separated(s, m.key_end, colon);
        let next = skip_space(s, m.end);
        white_space_is_skipped(s, m.end);
        if next < s.len() && s[next] == COMMA {
            let start = skip_space(s, next + 1);
            lemma_separated(s, m.end, next);
            lemma_members_separated(s, start);
            if let Some(rest) = members_from(s, start) {
                let ms = seq![m] + rest;
                assert(members_from(s, i) == Some(ms));
                assert(ms.last() == rest.last());
                assert forall|n: int| 0 <= n < ms.len() implies {
                    &&& s[(#[trigger] ms[n]).key] == 0x22
                    &&& string_end(s, ms[n].key + 1) == Some(ms[n].key_end)
                    &&& separates(s, ms[n].key_end, ms[n].start, 0x3a)
                    &&& value_end(s, ms[n].start) == Some(ms[n].end)
                } by {
                    if n > 0 {
                        assert(ms[n] == rest[n - 1]);
                    }
                }
                assert forall|n: int| 0 <= n < ms.len() - 1 implies separates(
                    s,
                    (#[trigger] ms[n]).end,
                    ms[n + 1].key,
                    0x2c,
                ) by {
                    assert(ms[n + 1] == rest[n]);
                    if n > 0 {
                        assert(ms[n] == rest[n - 1]);
                    }
                }
            }
        }
    }
}

/// The members of an object stand as JSON has it: behind the opening brace,
/// each a string, a colon and a value, with commas between them and the
/// closing brace behind the last, and nothing but white space in the gaps.
pub proof fn members_stand_between_separators(s: Seq<u8>, ms: Seq<Span>, n: int)
    requires
        members(s) == Some(ms),
    ensures
        1 <= opening(s) <= s.len() && s[opening(s) - 1] == 0x7b,
        forall|j: int| 0 <= j < opening(s) - 1 ==> is_space(#[trigger] s[j]),
        ms.len() == 0 ==> skip_space(s, opening(s)) < s.len() && s[skip_space(s, opening(s))]
            == 0x7d,
        ms.len() > 0 ==> ms[0].key == skip_space(s, opening(s)) && s[skip_space(
            s,
            ms.last().end,
        )] == 0x7d,
        0 <= n < ms.len() ==> {
            &&& s[ms[n].key] == 0x22
            &&& string_end(s, ms[n].key + 1) == Some(ms[n].key_end)
            &&& separates(s, ms[n].key_end, ms[n].start, 0x3a)
            &&& value_end(s, ms[n].start) == Some(ms[n].end)
            &&& n + 1 < ms.len() ==> separates(s, ms[n].end, ms[n + 1].key, 0x2c)
        },
{
    members_are_in_order(s);
    white_space_is_skipped(s, 0);
    white_space_is_skipped(s, opening(s));
    lemma_members_separated(s, skip_space(s, opening(s)));
}

/// A field that is added has a comma in front of its key unless it is the
/// first, and a colon behind it.
pub proof fn added_fields_are_written_plainly(n: int, key: Seq<char>)
    ensures
        n == 0 ==> added_lead(n, key) == encode_utf8(json::quoted(key) + seq![':']),
        n != 0 ==> added_lead(n, key) == encode_utf8(seq![','] + json::quoted(key) + seq![':']),
        bare().open == encode_utf8(seq!['{']) && bare().tail == encode_utf8(seq!['}'])
            && bare().leads.len() == 0,
{
    assert(Seq::<char>::empty() + json::quoted(key) =~= json::quoted(key));
}

/// A text is woven member by member.
pub proof fn texts_are_woven_member_by_member(
    l: Layout,
    values: Seq<Seq<u8>>,
    lead: Seq<u8>,
    value: Seq<u8>,
)
    ensures
        weave(Layout { open: l.open, leads: Seq::empty(), tail: l.tail }, values) == l.open
            + l.tail,
        woven(l.leads.push(lead), values.push(value)) == woven(l.leads, values) + lead + value,
        weave(l, values) == l.open + woven(l.leads, values) + l.tail,
{
    assert(l.leads.push(lead).drop_last() =~= l.leads);
    assert(values.push(value).drop_last() =~= values);
    assert(weave(Layout { open: l.open, leads: Seq::empty(), tail: l.tail }, values) =~= l.open
        + l.tail);
}

} // verus!
