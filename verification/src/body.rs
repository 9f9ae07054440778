//! A request body, taken apart no further than its top-level fields.
use crate::json;
use crate::json::{parse_object, quote, read_bool, read_string, Entries};
use crate::layout;
use crate::layout::find_members;
use crate::text::same;
use vstd::prelude::*;
use vstd::slice::slice_subrange;
use vstd::utf8::*;

verus! {

/// The text of a JSON value: a piece of the request, or a new one.
#[derive(Debug)]
pub enum RawText<'a> {
    Borrowed(&'a str),
    Owned(String),
}

impl<'a> View for RawText<'a> {
    type V = Seq<char>;

    open spec fn view(&self) -> Seq<char> {
        match *self {
            RawText::Borrowed(s) => s@,
            RawText::Owned(s) => s@,
        }
    }
}

impl<'a> RawText<'a> {
    /// The text itself.
    pub fn as_str(&self) -> (r: &str)
        ensures
            r@ == self@,
    {
        match self {
            RawText::Borrowed(s) => s,
            RawText::Owned(s) => s.as_str(),
        }
    }
}

/// Bytes between two values: a piece of the request, or new ones.
#[derive(Debug)]
pub enum RawBytes<'a> {
    Borrowed(&'a [u8]),
    Owned(Vec<u8>),
}

impl<'a> View for RawBytes<'a> {
    type V = Seq<u8>;

    open spec fn view(&self) -> Seq<u8> {
        match *self {
            RawBytes::Borrowed(b) => b@,
            RawBytes::Owned(b) => b@,
        }
    }
}

impl<'a> RawBytes<'a> {
    /// The bytes themselves.
    pub fn as_slice(&self) -> (r: &[u8])
        ensures
            r@ == self@,
    {
        match self {
            RawBytes::Borrowed(b) => b,
            RawBytes::Owned(b) => b.as_slice(),
        }
    }
}

/// A field: the bytes in front of its value, its key, and its value.
#[derive(Debug)]
struct Field<'a> {
    lead: RawBytes<'a>,
    key: String,
    value: RawText<'a>,
}

/// A top-level JSON object whose values are kept as raw, unparsed slices
/// borrowed from the request buffer, together with the bytes between them.
///
/// serde_json still parses and validates the entire input, but only
/// top-level keys are materialized; a body is forwarded byte for byte but for
/// the values that are set, preserving key order, number precision and
/// formatting. Where a top-level key is repeated, the last value wins at the
/// place of the first, and the object is written anew, without white space
/// between its fields.
#[derive(Debug)]
pub struct RawBody<'a> {
    open: RawBytes<'a>,
    fields: Vec<Field<'a>>,
    tail: RawBytes<'a>,
}

/// Why bytes are no request body.
#[derive(Debug)]
pub enum BodyError {
    /// JSON, but not an object.
    NotAnObject,
    /// Not JSON; the parser's message.
    InvalidJson(String),
}

/// The first field with that key, or the number of fields.
pub open spec fn position(es: Entries, key: Seq<char>) -> int
    decreases es.len(),
{
    if es.len() == 0 || es[0].0 == key {
        0
    } else {
        1 + position(es.skip(1), key)
    }
}

/// The raw value of a field, if it is there.
pub open spec fn lookup(es: Entries, key: Seq<char>) -> Option<Seq<char>> {
    let i = position(es, key);
    if i < es.len() {
        Some(es[i].1)
    } else {
        None
    }
}

/// The fields with one of them set: in its place if it is there, at the end
/// if it is not.
pub open spec fn assign(es: Entries, key: Seq<char>, value: Seq<char>) -> Entries {
    let i = position(es, key);
    if i < es.len() {
        es.update(i, (key, value))
    } else {
        es.push((key, value))
    }
}

/// The fields with duplicate keys collapsed, as if each were set in turn.
pub open spec fn collapse(es: Entries) -> Entries
    decreases es.len(),
{
    if es.len() == 0 {
        seq![]
    } else {
        assign(collapse(es.drop_last()), es.last().0, es.last().1)
    }
}

/// No key occurs twice.
pub open spec fn distinct_keys(es: Entries) -> bool {
    forall|i: int, j: int|
        0 <= i < j < es.len() ==> (#[trigger] es[i]).0 != (#[trigger] es[j]).0
}

/// The keys of fields.
pub open spec fn keys_of(es: Entries) -> Seq<Seq<char>> {
    es.map_values(|e: (Seq<char>, Seq<char>)| e.0)
}

/// The raw values of fields, as bytes.
pub open spec fn values_of(es: Entries) -> Seq<Seq<u8>> {
    es.map_values(|e: (Seq<char>, Seq<char>)| encode_utf8(e.1))
}

/// The keys of the fields behind the first `n`.
pub open spec fn added(n: int, es: Entries) -> Seq<Seq<char>> {
    keys_of(es).skip(n)
}

/// A text with the values of fields put in.
pub open spec fn written(l: layout::Layout, es: Entries) -> Seq<u8> {
    layout::weave(l, values_of(es))
}

/// How a body read from `bytes` is laid out: as it came or, where a key is
/// repeated, without white space.
pub open spec fn layout_for(bytes: Seq<u8>, es: Entries) -> layout::Layout {
    let ms = layout::members(bytes)->0;
    if ms.len() == es.len() {
        layout::layout_of(bytes, ms)
    } else {
        layout::extended(layout::bare(), keys_of(es))
    }
}

/// One field as JSON.
pub open spec fn field_text(e: (Seq<char>, Seq<char>)) -> Seq<char> {
    json::quoted(e.0) + seq![':'] + e.1
}

/// The fields as JSON, with commas between them.
pub open spec fn fields_text(es: Entries) -> Seq<char>
    decreases es.len(),
{
    if es.len() == 0 {
        seq![]
    } else if es.len() == 1 {
        field_text(es[0])
    } else {
        fields_text(es.drop_last()) + seq![','] + field_text(es.last())
    }
}

/// The object as JSON.
pub open spec fn object_text(es: Entries) -> Seq<char> {
    seq!['{'] + fields_text(es) + seq!['}']
}

/// What `position` returns, without recursion.
pub proof fn lemma_position(es: Entries, key: Seq<char>, i: int)
    requires
        0 <= i <= es.len(),
        forall|j: int| 0 <= j < i ==> (#[trigger] es[j]).0 != key,
        i < es.len() ==> es[i].0 == key,
    ensures
        position(es, key) == i,
    decreases es.len(),
{
    if i > 0 {
        let rest = es.skip(1);
        assert forall|j: int| 0 <= j < i - 1 implies (#[trigger] rest[j]).0 != key by {
            assert(rest[j] == es[j + 1]);
        }
        if i < es.len() {
            assert(rest[i - 1] == es[i]);
        }
        assert(es[0].0 != key);
        lemma_position(rest, key, i - 1);
    }
}

/// `position` is the first occurrence.
pub proof fn lemma_position_first(es: Entries, key: Seq<char>)
    ensures
        0 <= position(es, key) <= es.len(),
        position(es, key) < es.len() ==> es[position(es, key)].0 == key,
        forall|j: int| 0 <= j < position(es, key) ==> (#[trigger] es[j]).0 != key,
    decreases es.len(),
{
    if es.len() > 0 && es[0].0 != key {
        let rest = es.skip(1);
        lemma_position_first(rest, key);
        let n = position(es, key);
        assert(n == 1 + position(rest, key));
        assert forall|j: int| 0 <= j < n implies (#[trigger] es[j]).0 != key by {
            if j > 0 {
                assert(es[j] == rest[j - 1]);
            }
        }
        if n < es.len() {
            assert(es[n] == rest[n - 1]);
        }
    }
}

/// Setting a field changes what is read from it, and nothing else: the value
/// set is read back, every other key reads as before, the keys that were
/// there keep their places, and no key comes to occur twice.
pub proof fn set_then_get(es: Entries, key: Seq<char>, value: Seq<char>)
    ensures
        lookup(assign(es, key, value), key) == Some(value),
        forall|other: Seq<char>|
            other != key ==> lookup(assign(es, key, value), other) == #[trigger] lookup(es, other),
        forall|i: int|
            #![trigger assign(es, key, value)[i]]
            #![trigger es[i]]
            0 <= i < es.len() ==> assign(es, key, value)[i].0 == es[i].0,
        forall|i: int|
            #![trigger assign(es, key, value)[i]]
            #![trigger es[i]]
            0 <= i < es.len() && es[i].0 != key ==> assign(es, key, value)[i] == es[i],
        es.len() <= assign(es, key, value).len() <= es.len() + 1,
        assign(es, key, value).len() > es.len() ==> assign(es, key, value).last() == (key, value),
        distinct_keys(es) ==> distinct_keys(assign(es, key, value)),
{
    let out = assign(es, key, value);
    let p = position(es, key);
    lemma_position_first(es, key);
    assert forall|j: int| 0 <= j < p implies (#[trigger] out[j]).0 != key by {
        assert(out[j] == es[j]);
    }
    lemma_position(out, key, p);
    assert forall|other: Seq<char>| other != key implies lookup(out, other) == #[trigger] lookup(
        es,
        other,
    ) by {
        let q = position(es, other);
        lemma_position_first(es, other);
        if q < es.len() {
            assert forall|j: int| 0 <= j < q implies (#[trigger] out[j]).0 != other by {
                assert(es[j].0 != other);
            }
            lemma_position(out, other, q);
        } else {
            assert forall|j: int| 0 <= j < out.len() implies (#[trigger] out[j]).0 != other by {
                if j < es.len() {
                    assert(es[j].0 != other);
                }
            }
            lemma_position(out, other, out.len() as int);
        }
    }
    if distinct_keys(es) {
        assert forall|i: int, j: int| 0 <= i < j < out.len() implies (#[trigger] out[i]).0 != (
        #[trigger] out[j]).0 by {
            assert(es[i].0 == out[i].0);
            if j < es.len() {
                assert(es[j].0 == out[j].0);
            }
        }
    }
}

/// Duplicates collapse so that no key is left twice and each key reads as
/// its last value.
pub proof fn duplicates_collapse_last_wins(es: Entries)
    ensures
        distinct_keys(collapse(es)),
        forall|i: int|
            0 <= i < es.len() && (forall|j: int| i < j < es.len() ==> (#[trigger] es[j]).0
                != es[i].0) ==> lookup(collapse(es), (#[trigger] es[i]).0) == Some(es[i].1),
        forall|k: int|
            0 <= k < collapse(es).len() ==> exists|i: int|
                0 <= i < es.len() && #[trigger] es[i] == #[trigger] collapse(es)[k],
    decreases es.len(),
{
    if es.len() > 0 {
        let init = es.drop_last();
        let key = es.last().0;
        duplicates_collapse_last_wins(init);
        set_then_get(collapse(init), key, es.last().1);
        assert forall|i: int|
            0 <= i < es.len() && (forall|j: int| i < j < es.len() ==> (#[trigger] es[j]).0
                != es[i].0) implies lookup(collapse(es), (#[trigger] es[i]).0) == Some(
            es[i].1,
        ) by {
            if i < es.len() - 1 {
                assert(init[i] == es[i]);
                assert(es[es.len() - 1].0 != es[i].0);
                assert forall|j: int| i < j < init.len() implies (#[trigger] init[j]).0
                    != init[i].0 by {
                    assert(init[j] == es[j]);
                }
                assert(lookup(collapse(init), init[i].0) == Some(init[i].1));
            }
        }
        assert forall|k: int| 0 <= k < collapse(es).len() implies exists|i: int|
            0 <= i < es.len() && #[trigger] es[i] == #[trigger] collapse(es)[k] by {
            let c = collapse(init);
            lemma_position_first(c, key);
            if k < c.len() && c[k].0 != key {
                assert(collapse(es)[k] == c[k]);
                let i = choose|i: int| 0 <= i < init.len() && #[trigger] init[i] == c[k];
                assert(es[i] == collapse(es)[k]);
            } else {
                assert(collapse(es)[k] == es[es.len() - 1]) by {
                    if k < c.len() {
                        assert(k == position(c, key)) by {
                            assert forall|j: int| 0 <= j < k implies (#[trigger] c[j]).0 != key by {
                                assert(c[j].0 != c[k].0);
                            }
                            lemma_position(c, key, k);
                        }
                    }
                }
            }
        }
    }
}

/// Whether every value is a piece of the input, byte for byte.
pub open spec fn from_input(es: Entries, bytes: Seq<u8>) -> bool {
    forall|i: int|
        0 <= i < es.len() ==> json::is_piece(encode_utf8((#[trigger] es[i]).1), bytes)
}

/// Fewer values to write from are still read back, and fields that were added
/// can be counted among those that were there.
proof fn lemma_reads_back_shrinks(
    l: layout::Layout,
    keys: Seq<Seq<char>>,
    more: Seq<Seq<char>>,
    all: Entries,
    some: Entries,
)
    requires
        json::reads_back(l, keys, all),
        forall|k: int|
            0 <= k < some.len() ==> exists|i: int|
                0 <= i < all.len() && #[trigger] all[i] == #[trigger] some[k],
    ensures
        json::reads_back(layout::extended(l, more), keys + more, some),
{
    let longer = layout::extended(l, more);
    let n = keys.len() as int;
    let m = (keys + more).len() as int;
    assert forall|es: Entries| json::rewrites(es, keys + more, some) implies json::object_entries(
        #[trigger] written(layout::extended(longer, added(m, es)), es),
    ) == Ok::<Entries, (bool, Seq<char>)>(collapse(es)) by {
        assert forall|i: int| 0 <= i < es.len() implies json::value_of(#[trigger] es[i].1, all) by {
            assert(json::value_of(es[i].1, some));
            if exists|j: int| 0 <= j < some.len() && (#[trigger] some[j]).1 == es[i].1 {
                let j = choose|j: int| 0 <= j < some.len() && (#[trigger] some[j]).1 == es[i].1;
                let k = choose|k: int| 0 <= k < all.len() && #[trigger] all[k] == some[j];
                assert(all[k].1 == es[i].1);
            }
        }
        assert(keys_of(es).take(n) =~= keys_of(es).take(m).take(n));
        assert((keys + more).take(n) =~= keys);
        assert(json::rewrites(es, keys, all));
        assert(added(n, es) =~= keys_of(es).take(m).skip(n) + added(m, es));
        assert((keys + more).skip(n) =~= more);
        layout::extensions_add_up(l, more, added(m, es));
    }
}

/// A body without duplicate keys is taken as it is.
pub proof fn distinct_fields_stay(es: Entries)
    requires
        distinct_keys(es),
    ensures
        collapse(es) == es,
    decreases es.len(),
{
    if es.len() > 0 {
        let init = es.drop_last();
        assert(distinct_keys(init)) by {
            assert forall|i: int, j: int| 0 <= i < j < init.len() implies (#[trigger] init[i]).0
                != (#[trigger] init[j]).0 by {
                assert(es[i].0 != es[j].0);
            }
        }
        distinct_fields_stay(init);
        assert forall|j: int| 0 <= j < init.len() implies (#[trigger] init[j]).0 != es.last().0 by {
            assert(es[j].0 != es[es.len() - 1].0);
        }
        lemma_position(init, es.last().0, init.len() as int);
        assert(collapse(es) =~= es);
    }
}

/// Collapsing takes fields away exactly where a key is repeated.
pub proof fn collapsing_shortens_repeated_keys(es: Entries)
    ensures
        collapse(es).len() <= es.len(),
        collapse(es).len() == es.len() <==> distinct_keys(es),
    decreases es.len(),
{
    if distinct_keys(es) {
        distinct_fields_stay(es);
    }
    if es.len() > 0 {
        let init = es.drop_last();
        let key = es.last().0;
        collapsing_shortens_repeated_keys(init);
        lemma_position_first(collapse(init), key);
        if collapse(es).len() == es.len() {
            distinct_fields_stay(init);
            assert forall|i: int, j: int| 0 <= i < j < es.len() implies (#[trigger] es[i]).0 != (
            #[trigger] es[j]).0 by {
                assert(init[i] == es[i]);
                if j < init.len() {
                    assert(init[j] == es[j]);
                }
            }
        }
    }
}

/// A text without repeated keys has as many members as fields, each field
/// spelled by the member at its place.
pub proof fn distinct_members_are_the_fields(bytes: Seq<u8>, raw: Entries)
    requires
        json::spelled(bytes, raw),
    ensures
        distinct_keys(raw) <==> (layout::members(bytes)->0).len() == collapse(raw).len(),
        distinct_keys(raw) ==> collapse(raw) == raw,
{
    collapsing_shortens_repeated_keys(raw);
    if distinct_keys(raw) {
        distinct_fields_stay(raw);
    }
}

/// A text written from the fields it was read as is that text.
pub proof fn fields_are_written_as_they_came(bytes: Seq<u8>, es: Entries)
    requires
        json::read_as(bytes, es),
        (layout::members(bytes)->0).len() == es.len(),
    ensures
        json::spelled(bytes, es),
        values_of(es) == layout::values_at(bytes, layout::members(bytes)->0),
        written(layout_for(bytes, es), es) == bytes,
{
    let raw = choose|raw: Entries| #[trigger] json::spelled(bytes, raw) && es == collapse(raw);
    let ms = layout::members(bytes)->0;
    distinct_members_are_the_fields(bytes, raw);
    assert forall|i: int| 0 <= i < es.len() implies #[trigger] values_of(es)[i]
        == layout::values_at(bytes, ms)[i] by {
        assert(json::spells(bytes, ms[i], es[i]));
    }
    assert(values_of(es) =~= layout::values_at(bytes, ms));
    layout::own_values_weave_to_the_text(bytes, ms);
}

/// An object without white space is written as its fields between braces,
/// with commas between them.
pub proof fn bare_objects_are_written_plainly(es: Entries)
    ensures
        written(layout::extended(layout::bare(), keys_of(es)), es) == encode_utf8(object_text(es)),
{
    lemma_bare_fields(es);
    lemma_encode_concat(seq!['{'], fields_text(es));
    lemma_encode_concat(seq!['{'] + fields_text(es), seq!['}']);
}

proof fn lemma_bare_fields(es: Entries)
    ensures
        layout::woven(layout::extended(layout::bare(), keys_of(es)).leads, values_of(es))
            == encode_utf8(fields_text(es)),
    decreases es.len(),
{
    let leads = layout::extended(layout::bare(), keys_of(es)).leads;
    if es.len() > 0 {
        let init = es.drop_last();
        let n = es.len() - 1;
        let e = es.last();
        lemma_bare_fields(init);
        assert(leads.drop_last() =~= layout::extended(layout::bare(), keys_of(init)).leads);
        assert(values_of(es).drop_last() =~= values_of(init));
        assert(keys_of(es)[n] == e.0);
        assert(leads.last() == layout::added_lead(n, e.0));
        let comma = if n == 0 {
            seq![]
        } else {
            seq![',']
        };
        let lead = comma + json::quoted(e.0) + seq![':'];
        lemma_encode_concat(fields_text(init), lead);
        lemma_encode_concat(fields_text(init) + lead, e.1);
        if n == 0 {
            assert(fields_text(init) + lead + e.1 =~= field_text(e));
        } else {
            assert(fields_text(init) + lead + e.1 =~= fields_text(init) + seq![','] + field_text(
                e,
            ));
        }
    } else {
        assert(leads =~= seq![]);
    }
}

/// Texts one behind the other are encoded one behind the other.
pub proof fn lemma_encode_concat(a: Seq<char>, b: Seq<char>)
    ensures
        encode_utf8(a + b) == encode_utf8(a) + encode_utf8(b),
    decreases a.len(),
{
    if a.len() == 0 {
        assert(a + b =~= b);
        assert(encode_utf8(a) + encode_utf8(b) =~= encode_utf8(b));
    } else {
        lemma_encode_concat(a.drop_first(), b);
        assert((a + b).drop_first() =~= a.drop_first() + b);
        assert(encode_utf8(a + b) =~= encode_utf8(a) + encode_utf8(b));
    }
}

/// A value that can be read from the raw text of a field.
pub trait FromRaw: Sized {
    /// Whether `value` is what the text reads as.
    spec fn reads_as(raw: Seq<char>, value: Option<Self>) -> bool;

    /// Reads the text, or gives `None` if it is something else.
    fn from_raw(raw: &str) -> (r: Option<Self>)
        ensures
            Self::reads_as(raw@, r),
    ;
}

impl FromRaw for String {
    open spec fn reads_as(raw: Seq<char>, value: Option<Self>) -> bool {
        match value {
            Some(s) => json::string_value(raw) == Some(s@),
            None => json::string_value(raw) is None,
        }
    }

    fn from_raw(raw: &str) -> (r: Option<Self>) {
        read_string(raw)
    }
}

impl FromRaw for bool {
    open spec fn reads_as(raw: Seq<char>, value: Option<Self>) -> bool {
        value == json::bool_value(raw)
    }

    fn from_raw(raw: &str) -> (r: Option<Self>) {
        read_bool(raw)
    }
}

impl<'a> View for RawBody<'a> {
    type V = Entries;

    closed spec fn view(&self) -> Entries {
        self.fields@.map_values(|f: Field<'a>| (f.key@, f.value@))
    }
}

impl<'a> RawBody<'a> {
    /// The bytes around the values.
    pub closed spec fn layout(&self) -> layout::Layout {
        layout::Layout {
            open: self.open@,
            leads: self.fields@.map_values(|f: Field<'a>| f.lead@),
            tail: self.tail@,
        }
    }

    /// Builds a body from parsed fields, collapsing duplicate keys.
    pub fn from_entries(entries: Vec<(String, &'a str)>) -> (r: Self)
        ensures
            r@ == collapse(json::entries_of(entries@)),
            r.layout() == layout::extended(layout::bare(), keys_of(r@)),
    {
        let ghost es = json::entries_of(entries@);
        proof {
            reveal_strlit("{");
            reveal_strlit("}");
            assert("{"@ =~= seq!['{']);
            assert("}"@ =~= seq!['}']);
        }
        let mut body = RawBody {
            open: RawBytes::Borrowed("{".as_bytes()),
            fields: Vec::new(),
            tail: RawBytes::Borrowed("}".as_bytes()),
        };
        assert(body@ =~= collapse(es.take(0)));
        assert(body.layout() =~= layout::extended(layout::bare(), keys_of(body@)));
        let mut i: usize = 0;
        while i < entries.len()
            invariant
                es == json::entries_of(entries@),
                i <= entries@.len(),
                body@ == collapse(es.take(i as int)),
                body.layout() == layout::extended(layout::bare(), keys_of(body@)),
            decreases entries@.len() - i,
        {
            let ghost before = body@;
            proof {
                assert(es.take(i + 1).drop_last() =~= es.take(i as int));
                assert(es.take(i + 1).last() == (entries@[i as int].0@, entries@[i as int].1@));
            }
            body.put(entries[i].0.as_str(), RawText::Borrowed(entries[i].1));
            proof {
                set_then_get(before, entries@[i as int].0@, entries@[i as int].1@);
                let more = added(before.len() as int, body@);
                layout::extensions_add_up(layout::bare(), keys_of(before), more);
                assert(keys_of(before) + more =~= keys_of(body@));
            }
            i += 1;
        }
        assert(es.take(i as int) =~= es);
        body
    }

    /// Puts the fields of a text into its own layout.
    fn from_members(
        bytes: &'a [u8],
        entries: Vec<(String, &'a str)>,
        members: Vec<layout::Member>,
    ) -> (r: Self)
        requires
            layout::members(bytes@) == Some(layout::spans(members@)),
            members@.len() == entries@.len(),
        ensures
            r@ == json::entries_of(entries@),
            r.layout() == layout::layout_of(bytes@, layout::spans(members@)),
    {
        let ghost ms = layout::spans(members@);
        proof {
            layout::members_are_in_order(bytes@);
        }
        let mut at: usize = layout::find_opening(bytes);
        let open = RawBytes::Borrowed(slice_subrange(bytes, 0, at));
        assert(open@ =~= bytes@.take(layout::opening(bytes@)));
        let mut fields: Vec<Field<'a>> = Vec::new();
        let mut i: usize = 0;
        while i < entries.len()
            invariant
                ms == layout::spans(members@),
                layout::in_order(ms, layout::opening(bytes@), bytes@.len() as int),
                members@.len() == entries@.len(),
                i <= entries@.len(),
                fields@.len() == i,
                0 <= layout::opening(bytes@) <= at <= bytes@.len(),
                at == layout::lead_start(bytes@, ms, i as int),
                forall|k: int|
                    0 <= k < i ==> {
                        &&& (#[trigger] fields@[k]).lead@ == bytes@.subrange(
                            layout::lead_start(bytes@, ms, k),
                            ms[k].start,
                        )
                        &&& fields@[k].key@ == entries@[k].0@
                        &&& fields@[k].value@ == entries@[k].1@
                    },
            decreases entries@.len() - i,
        {
            assert(ms[i as int] == members@[i as int]@);
            proof {
                if i > 0 {
                    assert(ms[i - 1].end < ms[i as int].key);
                }
            }
            let lead = RawBytes::Borrowed(slice_subrange(bytes, at, members[i].start));
            let value = RawText::Borrowed(entries[i].1);
            fields.push(Field { lead, key: entries[i].0.as_str().to_owned(), value });
            at = members[i].end;
            i += 1;
        }
        let tail = RawBytes::Borrowed(slice_subrange(bytes, at, bytes.len()));
        assert(tail@ =~= bytes@.skip(at as int));
        let r = RawBody { open, fields, tail };
        assert(r@ =~= json::entries_of(entries@));
        assert(r.layout().leads =~= layout::layout_of(bytes@, ms).leads);
        r
    }

    /// Parses the bytes of a request. Anything but a JSON object is refused.
    pub fn from_slice(bytes: &'a [u8]) -> (r: Result<Self, BodyError>)
        ensures
            match json::object_entries(bytes@) {
                Ok(es) => r matches Ok(body) && body@ == es && json::read_as(bytes@, es)
                    && body.layout() == layout_for(bytes@, es) && from_input(es, bytes@)
                    && distinct_keys(es) && json::reads_back(body.layout(), keys_of(es), es),
                Err((is_data, message)) => match r {
                    Ok(_) => false,
                    Err(BodyError::NotAnObject) => is_data,
                    Err(BodyError::InvalidJson(m)) => !is_data && m@ == message,
                },
            },
    {
        match parse_object(bytes) {
            Ok(entries) => {
                let ghost es = json::entries_of(entries@);
                let ghost raw = choose|raw: Entries| #[trigger]
                    json::rewritable(bytes@, raw) && es == collapse(raw);
                let ghost ms = layout::members(bytes@)->0;
                let found = find_members(bytes);
                proof {
                    duplicates_collapse_last_wins(raw);
                    assert(json::spelled(bytes@, raw));
                    assert forall|k: int| 0 <= k < es.len() implies json::is_piece(
                        encode_utf8((#[trigger] es[k]).1),
                        bytes@,
                    ) by {
                        let i = choose|i: int| 0 <= i < raw.len() && #[trigger] raw[i] == es[k];
                        layout::members_are_in_order(bytes@);
                        assert(json::spells(bytes@, ms[i], raw[i]));
                    }
                    distinct_members_are_the_fields(bytes@, raw);
                    distinct_fields_stay(es);
                    lemma_reads_back_shrinks(layout::bare(), seq![], keys_of(es), raw, es);
                    assert(seq![] + keys_of(es) =~= keys_of(es));
                }
                match found {
                    Some(members) if members.len() == entries.len() => {
                        Ok(RawBody::from_members(bytes, entries, members))
                    },
                    _ => Ok(RawBody::from_entries(entries)),
                }
            },
            Err((is_data, message)) => if is_data {
                Err(BodyError::NotAnObject)
            } else {
                Err(BodyError::InvalidJson(message))
            },
        }
    }

    /// The place of the first field with that key, or the number of fields.
    fn find(&self, key: &str) -> (i: usize)
        ensures
            i == position(self@, key@),
            i <= self.fields@.len(),
    {
        let mut i: usize = 0;
        while i < self.fields.len()
            invariant
                i <= self.fields@.len(),
                forall|j: int| 0 <= j < i ==> (#[trigger] self@[j]).0 != key@,
            decreases self.fields@.len() - i,
        {
            assert(self@[i as int].0 == self.fields@[i as int].key@);
            if same(self.fields[i].key.as_str(), key) {
                proof {
                    lemma_position(self@, key@, i as int);
                }
                return i;
            }
            i += 1;
        }
        proof {
            lemma_position(self@, key@, i as int);
        }
        i
    }

    /// The raw text of a field.
    pub fn get(&self, key: &str) -> (r: Option<&str>)
        ensures
            match r {
                Some(raw) => lookup(self@, key@) == Some(raw@),
                None => lookup(self@, key@) is None,
            },
    {
        let i: usize = self.find(key);
        if i < self.fields.len() {
            Some(self.fields[i].value.as_str())
        } else {
            None
        }
    }

    /// Parse one field into a concrete type (`None` if absent or mismatched).
    pub fn get_as<T: FromRaw>(&self, key: &str) -> (r: Option<T>)
        ensures
            match lookup(self@, key@) {
                Some(raw) => T::reads_as(raw, r),
                None => r is None,
            },
    {
        match self.get(key) {
            Some(raw) => T::from_raw(raw),
            None => None,
        }
    }

    fn put(&mut self, key: &str, value: RawText<'a>)
        ensures
            final(self)@ == assign(old(self)@, key@, value@),
            final(self).layout() == layout::extended(
                old(self).layout(),
                added(old(self)@.len() as int, final(self)@),
            ),
    {
        let i: usize = self.find(key);
        let ghost before = self@;
        let ghost around = self.layout();
        if i < self.fields.len() {
            proof {
                lemma_position_first(self@, key@);
                assert(self@[i as int].0 == self.fields@[i as int].key@);
            }
            self.fields[i].value = value;
            assert(self@ =~= before.update(i as int, (key@, value@)));
            assert(added(before.len() as int, self@) =~= seq![]);
        } else {
            proof {
                reveal_strlit(",");
                reveal_strlit(":");
                assert(","@ =~= seq![',']);
                assert(":"@ =~= seq![':']);
            }
            let quoted = quote(key);
            let mut text = if i == 0 {
                String::new()
            } else {
                ",".to_owned()
            };
            text.append(quoted.as_str());
            text.append(":");
            let ghost whole = text@;
            let lead = RawBytes::Owned(text.into_bytes());
            proof {
                let comma = if i == 0 {
                    seq![]
                } else {
                    seq![',']
                };
                assert(whole =~= comma + json::quoted(key@) + seq![':']);
                assert(lead@ == layout::added_lead(i as int, key@));
            }
            self.fields.push(Field { lead, key: key.to_owned(), value });
            assert(self@ =~= before.push((key@, value@)));
            assert(added(before.len() as int, self@) =~= seq![key@]);
        }
        assert(self.layout() =~= layout::extended(around, added(before.len() as int, self@)));
    }

    /// Insert or replace a top-level field by a JSON text, keeping its
    /// original position. A new field goes right behind the last value.
    pub fn set(&mut self, key: &str, value: String)
        ensures
            final(self)@ == assign(old(self)@, key@, value@),
            final(self).layout() == layout::extended(
                old(self).layout(),
                added(old(self)@.len() as int, final(self)@),
            ),
    {
        self.put(key, RawText::Owned(value));
    }

    /// The body as JSON: the fields in order, each value where the one it
    /// replaced stood.
    pub fn to_bytes(&self) -> (r: Vec<u8>)
        ensures
            r@ == written(self.layout(), self@),
    {
        let ghost leads = self.layout().leads;
        let ghost values = values_of(self@);
        let mut out: Vec<u8> = Vec::new();
        out.extend_from_slice(self.open.as_slice());
        assert(out@ =~= self.open@ + layout::woven(leads.take(0), values.take(0)));
        let mut i: usize = 0;
        while i < self.fields.len()
            invariant
                i <= self.fields@.len(),
                leads == self.layout().leads,
                values == values_of(self@),
                out@ == self.open@ + layout::woven(leads.take(i as int), values.take(i as int)),
            decreases self.fields@.len() - i,
        {
            let ghost before = out@;
            out.extend_from_slice(self.fields[i].lead.as_slice());
            assert(out@ =~= before + self.fields@[i as int].lead@);
            let text = self.fields[i].value.as_str();
            out.extend_from_slice(text.as_bytes());
            proof {
                assert(self@[i as int].1 == self.fields@[i as int].value@);
                assert(leads[i as int] == self.fields@[i as int].lead@);
                assert(out@ =~= before + leads[i as int] + values[i as int]);
                assert(leads.take(i + 1).drop_last() =~= leads.take(i as int));
                assert(values.take(i + 1).drop_last() =~= values.take(i as int));
                assert(before + leads[i as int] + values[i as int] =~= self.open@ + (layout::woven(
                    leads.take(i as int),
                    values.take(i as int),
                ) + leads[i as int] + values[i as int]));
            }
            i += 1;
        }
        assert(leads.take(i as int) =~= leads);
        assert(values.take(i as int) =~= values);
        let ghost before = out@;
        out.extend_from_slice(self.tail.as_slice());
        assert(out@ =~= before + self.tail@);
        out
    }
}

/// A field is read and set where its key occurs first, and added at the end
/// where it does not occur.
pub proof fn fields_are_found_by_key(es: Entries, key: Seq<char>, value: Seq<char>, i: int)
    requires
        0 <= i <= es.len(),
        forall|j: int| 0 <= j < i ==> (#[trigger] es[j]).0 != key,
        i < es.len() ==> es[i].0 == key,
    ensures
        i < es.len() ==> lookup(es, key) == Some(es[i].1) && assign(es, key, value) == es.update(
            i,
            (key, value),
        ),
        i == es.len() ==> lookup(es, key) is None && assign(es, key, value) == es.push(
            (key, value),
        ),
{
    lemma_position(es, key, i);
}

/// Fields are taken in one by one: a new key goes to the end, and a repeated
/// one gets its new value at its old place.
pub proof fn repeated_keys_keep_their_first_place(es: Entries, key: Seq<char>, value: Seq<char>)
    ensures
        collapse(Seq::empty()) == Seq::<(Seq<char>, Seq<char>)>::empty(),
        (forall|j: int| 0 <= j < collapse(es).len() ==> (#[trigger] collapse(es)[j]).0 != key)
            ==> collapse(es.push((key, value))) == collapse(es).push((key, value)),
        forall|i: int|
            0 <= i < collapse(es).len() && (#[trigger] collapse(es)[i]).0 == key ==> collapse(
                es.push((key, value)),
            ) == collapse(es).update(i, (key, value)),
{
    let c = collapse(es);
    let all = es.push((key, value));
    assert(all.drop_last() =~= es);
    duplicates_collapse_last_wins(es);
    if forall|j: int| 0 <= j < c.len() ==> (#[trigger] c[j]).0 != key {
        lemma_position(c, key, c.len() as int);
    }
    assert forall|i: int| 0 <= i < c.len() && (#[trigger] c[i]).0 == key implies collapse(all)
        == c.update(i, (key, value)) by {
        assert forall|j: int| 0 <= j < i implies (#[trigger] c[j]).0 != key by {
            assert(c[j].0 != c[i].0);
        }
        lemma_position(c, key, i);
    }
}

/// Keys and values of fields are seen one by one.
pub proof fn fields_are_seen_one_by_one(es: Entries, i: int)
    requires
        0 <= i < es.len(),
    ensures
        keys_of(es).len() == es.len() && keys_of(es)[i] == es[i].0,
        values_of(es).len() == es.len() && values_of(es)[i] == encode_utf8(es[i].1),
        added(i, es) == keys_of(es.skip(i)),
{
    assert(added(i, es) =~= keys_of(es.skip(i)));
}

/// An object is written as its fields between braces, each the key as a JSON
/// string, a colon and the value, with a comma in front of all but the first.
pub proof fn objects_are_written_field_by_field(es: Entries, key: Seq<char>, value: Seq<char>)
    ensures
        object_text(Seq::empty()) == seq!['{', '}'],
        object_text(seq![(key, value)]) == seq!['{'] + json::quoted(key) + seq![':'] + value
            + seq!['}'],
        es.len() > 0 ==> object_text(es.push((key, value))) == object_text(es).drop_last()
            + seq![','] + json::quoted(key) + seq![':'] + value + seq!['}'],
{
    assert(object_text(Seq::empty()) =~= seq!['{', '}']);
    assert(object_text(seq![(key, value)]) =~= seq!['{'] + json::quoted(key) + seq![':'] + value
        + seq!['}']);
    let all = es.push((key, value));
    if es.len() > 0 {
        assert(all.drop_last() =~= es);
        assert(object_text(es).drop_last() =~= seq!['{'] + fields_text(es));
        assert(object_text(all) =~= seq!['{'] + fields_text(es) + seq![','] + json::quoted(key)
            + seq![':'] + value + seq!['}']);
    }
}

/// A field reads as a text where it is a JSON string, and as a truth value
/// where it is one.
pub proof fn fields_read_as_what_they_are(raw: Seq<char>, text: Option<String>, truth: Option<bool>)
    ensures
        String::reads_as(raw, text) && text is Some ==> json::string_value(raw) == Some(
            (text->0)@,
        ),
        String::reads_as(raw, text) && text is None ==> json::string_value(raw) is None,
        bool::reads_as(raw, truth) <==> truth == json::bool_value(raw),
{
}

/// A body goes out laid out as it came where it has as many members as
/// fields, and plainly where a key was repeated.
pub proof fn bodies_keep_their_layout_unless_keys_repeat(bytes: Seq<u8>, es: Entries)
    ensures
        (layout::members(bytes)->0).len() == es.len() ==> layout_for(bytes, es)
            == layout::layout_of(bytes, layout::members(bytes)->0),
        (layout::members(bytes)->0).len() != es.len() ==> written(layout_for(bytes, es), es)
            == encode_utf8(object_text(es)),
{
    bare_objects_are_written_plainly(es);
}

} // verus!
