//! JSON text, read and written by `serde_json`.
use crate::body;
use crate::labels;
use crate::layout;
use indexmap::IndexMap;
use serde_json::value::RawValue;
use vstd::prelude::*;
use vstd::utf8::*;

verus! {

/// A lower-case hexadecimal digit.
pub open spec fn hex_lower(d: nat) -> char {
    if d < 10 {
        (('0' as nat) + d) as char
    } else {
        (('a' as nat) + d - 10) as char
    }
}

/// How one character is written inside a JSON string: the quote, the
/// backslash and the controls are escaped, everything else stands for itself.
pub open spec fn escape(c: char) -> Seq<char> {
    if c == '"' {
        seq!['\\', '"']
    } else if c == '\\' {
        seq!['\\', '\\']
    } else if c == '\u{8}' {
        seq!['\\', 'b']
    } else if c == '\t' {
        seq!['\\', 't']
    } else if c == '\n' {
        seq!['\\', 'n']
    } else if c == '\u{c}' {
        seq!['\\', 'f']
    } else if c == '\r' {
        seq!['\\', 'r']
    } else if '\u{1f}' >= c {
        seq!['\\', 'u', '0', '0', hex_lower(c as nat / 16), hex_lower(c as nat % 16)]
    } else {
        seq![c]
    }
}

/// A text with every character escaped for a JSON string.
pub open spec fn escaped(s: Seq<char>) -> Seq<char>
    decreases s.len(),
{
    if s.len() == 0 {
        seq![]
    } else {
        escaped(s.drop_last()) + escape(s.last())
    }
}

/// A text as a JSON string.
pub open spec fn quoted(s: Seq<char>) -> Seq<char> {
    seq!['"'] + escaped(s) + seq!['"']
}

/// The key and raw value of each field.
pub type Entries = Seq<(Seq<char>, Seq<char>)>;

/// What `serde_json::from_slice` makes of the bytes of a JSON object: its
/// fields, each value as it stands in the input; or whether the input is JSON
/// of another shape, and the message of the error.
pub uninterp spec fn object_entries(bytes: Seq<u8>) -> Result<Seq<(Seq<char>, Seq<char>)>, (bool, Seq<char>)>;

/// What `serde_json::from_str` reads from the text of a JSON string.
pub uninterp spec fn string_value(raw: Seq<char>) -> Option<Seq<char>>;

/// Whether `piece` stands somewhere in `bytes`.
pub open spec fn is_piece(piece: Seq<u8>, bytes: Seq<u8>) -> bool {
    exists|a: int, b: int| 0 <= a <= b <= bytes.len() && piece == #[trigger] bytes.subrange(a, b)
}

/// The keys and raw values behind a list of parsed fields.
pub open spec fn entries_of(fields: Seq<(String, &str)>) -> Entries {
    fields.map_values(|f: (String, &str)| (f.0@, f.1@))
}

/// Whether a member that stands at `m` has the key and raw value `e`: its key
/// reads as that text, and its value is that text byte for byte.
pub open spec fn spells(bytes: Seq<u8>, m: layout::Span, e: (Seq<char>, Seq<char>)) -> bool {
    &&& encode_utf8(e.1) == bytes.subrange(m.start, m.end)
    &&& exists|literal: Seq<char>|
        {
            &&& encode_utf8(literal) == bytes.subrange(m.key, m.key_end)
            &&& #[trigger] string_value(literal) == Some(e.0)
        }
}

/// Whether the members of a text are `es`, one by one, repeated keys and all.
pub open spec fn spelled(bytes: Seq<u8>, es: Entries) -> bool {
    layout::members(bytes) matches Some(ms) && ms.len() == es.len() && forall|i: int|
        0 <= i < es.len() ==> #[trigger] spells(bytes, ms[i], es[i])
}

/// Whether a text whose members are `raw` is read as `es`: repeated keys
/// collapse, the last value winning at the place of the first.
pub open spec fn read_as(bytes: Seq<u8>, es: Entries) -> bool {
    exists|raw: Entries| #[trigger] spelled(bytes, raw) && es == body::collapse(raw)
}

/// Whether `es` begins with the fields `keys`, each value of it one of the
/// values of `base`, a JSON string, or the JSON of a map.
pub open spec fn rewrites(es: Entries, keys: Seq<Seq<char>>, base: Entries) -> bool {
    &&& keys.len() <= es.len()
    &&& body::keys_of(es).take(keys.len() as int) == keys
    &&& forall|i: int| 0 <= i < es.len() ==> value_of(#[trigger] es[i].1, base)
}

/// Whether a raw value is one of those of `base`, a JSON string, or the JSON
/// of a map.
pub open spec fn value_of(raw: Seq<char>, base: Entries) -> bool {
    ||| exists|j: int| 0 <= j < base.len() && (#[trigger] base[j]).1 == raw
    ||| exists|s: Seq<char>| raw == #[trigger] quoted(s)
    ||| exists|m: serde_json::Map<String, serde_json::Value>|
        labels::is_object_of(raw, #[trigger] labels::label_map(m))
}

/// Whether a text laid out for the fields `keys` is read back as the fields
/// that are written into it, with others added behind them or not, where the
/// values are those of `base`, strings and maps.
pub open spec fn reads_back(l: layout::Layout, keys: Seq<Seq<char>>, base: Entries) -> bool {
    forall|es: Entries|
        rewrites(es, keys, base) ==> object_entries(
            #[trigger] body::written(layout::extended(l, body::added(keys.len() as int, es)), es),
        ) == Ok::<Entries, (bool, Seq<char>)>(body::collapse(es))
}

/// Whether the members of a text are `raw` and fields written in their place,
/// or into an object of their own, are read back.
pub open spec fn rewritable(bytes: Seq<u8>, raw: Entries) -> bool {
    &&& spelled(bytes, raw)
    &&& reads_back(
        layout::layout_of(bytes, layout::members(bytes)->0),
        body::keys_of(raw),
        raw,
    )
    &&& reads_back(layout::bare(), seq![], raw)
}

/// White space as JSON has it.
pub open spec fn json_space(c: char) -> bool {
    c == ' ' || c == '\n' || c == '\t' || c == '\r'
}

/// Whether `raw` is `word` with nothing but JSON white space around it.
pub open spec fn is_word(raw: Seq<char>, word: Seq<char>) -> bool {
    exists|a: int, b: int|
        {
            &&& 0 <= a <= b <= raw.len()
            &&& #[trigger] raw.subrange(a, b) == word
            &&& forall|i: int| 0 <= i < a || b <= i < raw.len() ==> json_space(#[trigger] raw[i])
        }
}

/// The truth value a JSON text denotes, if it is one.
pub open spec fn bool_value(raw: Seq<char>) -> Option<bool> {
    if is_word(raw, "true"@) {
        Some(true)
    } else if is_word(raw, "false"@) {
        Some(false)
    } else {
        None
    }
}

/// Parses a JSON object by `serde_json::from_slice` into an ordered map of
/// raw values. Claimed: the outcome depends on the bytes alone. Of an input
/// that is taken, the members stand where skipping white space, strings and
/// brackets finds them; each key is what `serde_json::from_str` reads from
/// its literal, each value the bytes it stands in, and a repeated key keeps
/// its first place and its last value. Such a text is taken again, and read
/// as what is written in it, when its values are replaced, or members added
/// behind the last, by values of the input, strings and maps; and so is an
/// object written from them without white space.
/// An error says whether its category is `Data` (the input is JSON, but no
/// object) and carries its message.
#[verifier::external_body]
pub(crate) fn parse_object<'a>(bytes: &'a [u8]) -> (r: Result<
    Vec<(String, &'a str)>,
    (bool, String),
>)
    ensures
        match r {
            Ok(fields) => {
                &&& object_entries(bytes@) == Ok::<Entries, (bool, Seq<char>)>(entries_of(fields@))
                &&& exists|raw: Entries| #[trigger]
                    rewritable(bytes@, raw) && entries_of(fields@) == body::collapse(raw)
            },
            Err(e) => object_entries(bytes@) == Err::<Entries, (bool, Seq<char>)>((e.0, e.1@)),
        },
{
    match serde_json::from_slice::<IndexMap<String, &'a RawValue>>(bytes) {
        Ok(map) => Ok(map.into_iter().map(|(k, v)| (k, v.get())).collect()),
        Err(e) => Err((e.is_data(), e.to_string())),
    }
}

/// Reads a JSON string by `serde_json::from_str`. Claimed: the outcome
/// depends on the text alone.
#[verifier::external_body]
pub(crate) fn read_string(raw: &str) -> (r: Option<String>)
    ensures
        match r {
            Some(s) => string_value(raw@) == Some(s@),
            None => string_value(raw@) is None,
        },
{
    serde_json::from_str::<String>(raw).ok()
}

/// Reads a JSON truth value by `serde_json::from_str`. Claimed: it accepts
/// `true` and `false`, surrounded by JSON white space, and nothing else.
#[verifier::external_body]
pub(crate) fn read_bool(raw: &str) -> (r: Option<bool>)
    ensures
        r == bool_value(raw@),
{
    serde_json::from_str::<bool>(raw).ok()
}

/// Writes a text as a JSON string by `serde_json::to_string`, which cannot
/// fail on a text. Claimed: the result is the text between quotes with its
/// quotes, backslashes and controls escaped, and `serde_json::from_str` reads
/// it back.
#[verifier::external_body]
pub(crate) fn quote(s: &str) -> (r: String)
    ensures
        r@ == quoted(s@),
        string_value(r@) == Some(s@),
{
    serde_json::to_string(s).unwrap_or_default()
}

/// Truth values are the words for them, with nothing but white space around.
pub proof fn truth_values_are_words(before: Seq<char>, after: Seq<char>, raw: Seq<char>)
    requires
        forall|i: int| 0 <= i < before.len() ==> json_space(#[trigger] before[i]),
        forall|i: int| 0 <= i < after.len() ==> json_space(#[trigger] after[i]),
    ensures
        bool_value(before + "true"@ + after) == Some(true),
        bool_value(before + "false"@ + after) == Some(false),
        bool_value(raw) == Some(true) ==> is_word(raw, "true"@),
        bool_value(raw) == Some(false) ==> is_word(raw, "false"@),
        bool_value(raw) is None ==> !is_word(raw, "true"@) && !is_word(raw, "false"@),
{
    lemma_padded_word(before, "true"@, after);
    lemma_padded_word(before, "false"@, after);
    let s = before + "false"@ + after;
    assert(before.len() < s.len() && s[before.len() as int] == 'f') by {
        reveal_strlit("false");
    }
    lemma_no_true_with_an_f(s, before.len() as int);
}

proof fn lemma_no_true_with_an_f(s: Seq<char>, n: int)
    requires
        0 <= n < s.len(),
        s[n] == 'f',
    ensures
        !is_word(s, "true"@),
{
    if is_word(s, "true"@) {
        let (a, b) = choose|a: int, b: int|
            {
                &&& 0 <= a <= b <= s.len()
                &&& #[trigger] s.subrange(a, b) == "true"@
                &&& forall|i: int| 0 <= i < a || b <= i < s.len() ==> json_space(#[trigger] s[i])
            };
        assert(!json_space(s[n]));
        assert(a <= n < b);
        let c = s.subrange(a, b)[n - a];
        assert(c == 'f');
        assert("true"@.len() == 4 && "true"@[0] == 't' && "true"@[1] == 'r' && "true"@[2] == 'u'
            && "true"@[3] == 'e') by {
            reveal_strlit("true");
        }
    }
}

proof fn lemma_padded_word(before: Seq<char>, word: Seq<char>, after: Seq<char>)
    requires
        forall|i: int| 0 <= i < before.len() ==> json_space(#[trigger] before[i]),
        forall|i: int| 0 <= i < after.len() ==> json_space(#[trigger] after[i]),
    ensures
        is_word(before + word + after, word),
{
    let s = before + word + after;
    let a = before.len() as int;
    let b = a + word.len();
    assert(s.subrange(a, b) =~= word);
    assert forall|i: int| 0 <= i < a || b <= i < s.len() implies json_space(#[trigger] s[i]) by {
        if i < a {
            assert(s[i] == before[i]);
        } else {
            assert(s[i] == after[i - b]);
        }
    }
}

/// A text is a word where that word is all of it but white space, which is
/// made of four characters.
pub proof fn words_stand_alone(raw: Seq<char>, word: Seq<char>, c: char)
    ensures
        is_word(raw, word) ==> exists|before: Seq<char>, after: Seq<char>|
            {
                &&& raw == #[trigger] (before + word + after)
                &&& forall|i: int| 0 <= i < before.len() ==> json_space(#[trigger] before[i])
                &&& forall|i: int| 0 <= i < after.len() ==> json_space(#[trigger] after[i])
            },
        json_space(c) <==> c as u32 == 32 || c as u32 == 9 || c as u32 == 10 || c as u32 == 13,
{
    if is_word(raw, word) {
        let (a, b) = choose|a: int, b: int|
            {
                &&& 0 <= a <= b <= raw.len()
                &&& #[trigger] raw.subrange(a, b) == word
                &&& forall|i: int| 0 <= i < a || b <= i < raw.len() ==> json_space(
                    #[trigger] raw[i],
                )
            };
        let before = raw.take(a);
        let after = raw.skip(b);
        assert(raw =~= before + word + after);
        assert forall|i: int| 0 <= i < after.len() implies json_space(#[trigger] after[i]) by {
            assert(after[i] == raw[b + i]);
        }
    }
}

/// Parsed fields are seen one by one, key and raw value.
pub proof fn parsed_fields_are_seen_one_by_one(fields: Seq<(String, &str)>, i: int)
    ensures
        entries_of(fields).len() == fields.len(),
        0 <= i < fields.len() ==> entries_of(fields)[i] == (fields[i].0@, fields[i].1@),
{
}

/// In a JSON string only the quote, the backslash and the controls are
/// escaped, by a backslash; all else stands for itself.
pub proof fn strings_are_quoted_character_by_character(s: Seq<char>, c: char)
    ensures
        quoted(Seq::empty()) == seq!['"', '"'],
        quoted(s.push(c)) == quoted(s).drop_last() + escape(c) + seq!['"'],
        c as u32 >= 32 && c != '"' && c != '\\' ==> escape(c) == seq![c],
        c == '"' || c == '\\' ==> escape(c) == seq!['\\', c],
        (c as u32) < 32 ==> escape(c).len() >= 2 && escape(c)[0] == '\\' && (escape(c).len() == 2
            || escape(c).len() == 6 && escape(c)[1] == 'u'),
{
    assert(quoted(Seq::empty()) =~= seq!['"', '"']);
    assert(s.push(c).drop_last() =~= s);
    assert(quoted(s).drop_last() =~= seq!['"'] + escaped(s));
    assert(quoted(s.push(c)) =~= quoted(s).drop_last() + escape(c) + seq!['"']);
}

} // verus!
