//! Attribution labels, held in the map type of `serde_json`.
use crate::body;
use crate::json;
use crate::json::Entries;
use vstd::prelude::*;
use vstd::utf8::*;

verus! {

/// A JSON value of `serde_json`.
#[verifier::external_type_specification]
#[verifier::external_body]
pub struct ExValue(serde_json::Value);

/// The map type that `serde_json` holds JSON objects in.
#[verifier::external_type_specification]
#[verifier::external_body]
#[verifier::reject_recursive_types(K)]
#[verifier::reject_recursive_types(V)]
pub struct ExMap<K, V>(serde_json::Map<K, V>);

/// What a map holds: each key with the compact JSON of its value.
pub uninterp spec fn label_map(m: serde_json::Map<String, serde_json::Value>) -> Map<Seq<char>, Seq<char>>;

/// What `serde_json::from_str` reads from the text of a JSON object: each key
/// with the compact JSON of its value.
pub uninterp spec fn object_value(raw: Seq<char>) -> Option<Map<Seq<char>, Seq<char>>>;

/// No labels at all.
pub open spec fn no_labels() -> Map<Seq<char>, Seq<char>> {
    Map::empty()
}

/// Lexicographic order of byte strings.
pub open spec fn bytes_below(a: Seq<u8>, b: Seq<u8>) -> bool
    decreases a.len(),
{
    if b.len() == 0 {
        false
    } else if a.len() == 0 {
        true
    } else {
        a[0] < b[0] || (a[0] == b[0] && bytes_below(a.skip(1), b.skip(1)))
    }
}

/// Whether `es` lists exactly what `m` holds, in ascending order of the keys'
/// bytes.
pub open spec fn lists(es: Entries, m: Map<Seq<char>, Seq<char>>) -> bool {
    &&& forall|i: int, j: int|
        0 <= i < j < es.len() ==> bytes_below(
            encode_utf8((#[trigger] es[i]).0),
            encode_utf8((#[trigger] es[j]).0),
        )
    &&& forall|i: int|
        0 <= i < es.len() ==> m.contains_key((#[trigger] es[i]).0) && m[es[i].0] == es[i].1
    &&& forall|k: Seq<char>| #[trigger]
        m.contains_key(k) ==> exists|i: int| 0 <= i < es.len() && (#[trigger] es[i]).0 == k
}

/// Whether `s` is the JSON object of what `m` holds.
pub open spec fn is_object_of(s: Seq<char>, m: Map<Seq<char>, Seq<char>>) -> bool {
    exists|es: Entries| #[trigger] lists(es, m) && s == body::object_text(es)
}

/// Makes an empty map by `serde_json::Map::new`. Claimed: it holds nothing.
#[verifier::external_body]
pub(crate) fn new_labels() -> (r: serde_json::Map<String, serde_json::Value>)
    ensures
        label_map(r) == no_labels(),
{
    serde_json::Map::new()
}

/// Parses a JSON object by `serde_json::from_str`. Claimed: the outcome
/// depends on the text alone.
#[verifier::external_body]
pub(crate) fn parse_labels(raw: &str) -> (r: Option<serde_json::Map<String, serde_json::Value>>)
    ensures
        match r {
            Some(m) => object_value(raw@) == Some(label_map(m)),
            None => object_value(raw@) is None,
        },
{
    serde_json::from_str(raw).ok()
}

/// Sets a key to a text by `serde_json::Map::insert`. Claimed: the key then
/// holds the text as a JSON string, and every other key what it held.
#[verifier::external_body]
pub(crate) fn put_label(
    m: &mut serde_json::Map<String, serde_json::Value>,
    key: &str,
    value: &str,
)
    ensures
        label_map(*final(m)) == label_map(*old(m)).insert(key@, json::quoted(value@)),
{
    m.insert(key.to_string(), serde_json::Value::String(value.to_string()));
}

/// Writes a map by `serde_json::to_string`, which cannot fail on one whose
/// keys are texts. Claimed: the result is the compact JSON object of what the
/// map holds, the keys in ascending order.
#[verifier::external_body]
pub(crate) fn write_labels(m: &serde_json::Map<String, serde_json::Value>) -> (r: String)
    ensures
        is_object_of(r@, label_map(*m)),
{
    serde_json::to_string(m).unwrap_or_default()
}

/// The order of byte strings goes one way only.
proof fn lemma_below_asymmetric(a: Seq<u8>, b: Seq<u8>)
    ensures
        !(bytes_below(a, b) && bytes_below(b, a)),
    decreases a.len(),
{
    if a.len() > 0 && b.len() > 0 && a[0] == b[0] {
        lemma_below_asymmetric(a.skip(1), b.skip(1));
    }
}

/// Two listings agree up to any place that both have.
proof fn lemma_listings_agree(a: Entries, b: Entries, m: Map<Seq<char>, Seq<char>>, i: int)
    requires
        lists(a, m),
        lists(b, m),
        0 <= i < a.len(),
        i < b.len(),
    ensures
        forall|j: int| 0 <= j <= i ==> #[trigger] a[j] == b[j],
    decreases i,
{
    if i > 0 {
        lemma_listings_agree(a, b, m, i - 1);
    }
    let ka = a[i].0;
    let kb = b[i].0;
    assert(m.contains_key(ka) && m.contains_key(kb));
    let jb = choose|j: int| 0 <= j < b.len() && (#[trigger] b[j]).0 == ka;
    let ja = choose|j: int| 0 <= j < a.len() && (#[trigger] a[j]).0 == kb;
    lemma_below_asymmetric(encode_utf8(ka), encode_utf8(ka));
    lemma_below_asymmetric(encode_utf8(kb), encode_utf8(kb));
    lemma_below_asymmetric(encode_utf8(ka), encode_utf8(kb));
    assert(jb >= i) by {
        if jb < i {
            assert(a[jb] == b[jb]);
            assert(bytes_below(encode_utf8(a[jb].0), encode_utf8(a[i].0)));
        }
    }
    assert(ja >= i) by {
        if ja < i {
            assert(a[ja] == b[ja]);
            assert(bytes_below(encode_utf8(b[ja].0), encode_utf8(b[i].0)));
        }
    }
    if jb > i && ja > i {
        assert(bytes_below(encode_utf8(b[i].0), encode_utf8(b[jb].0)));
        assert(bytes_below(encode_utf8(a[i].0), encode_utf8(a[ja].0)));
    }
    assert(ka == kb);
}

/// What a map holds is written in one way only.
pub proof fn a_map_is_written_in_one_way(
    s: Seq<char>,
    t: Seq<char>,
    m: Map<Seq<char>, Seq<char>>,
)
    requires
        is_object_of(s, m),
        is_object_of(t, m),
    ensures
        s == t,
{
    let a = choose|es: Entries| #[trigger] lists(es, m) && s == body::object_text(es);
    let b = choose|es: Entries| #[trigger] lists(es, m) && t == body::object_text(es);
    lemma_listing_not_shorter(a, b, m);
    lemma_listing_not_shorter(b, a, m);
    if a.len() > 0 {
        lemma_listings_agree(a, b, m, a.len() - 1);
    }
    assert(a =~= b);
}

proof fn lemma_listing_not_shorter(a: Entries, b: Entries, m: Map<Seq<char>, Seq<char>>)
    requires
        lists(a, m),
        lists(b, m),
    ensures
        a.len() >= b.len(),
{
    if a.len() < b.len() {
        let n = a.len() as int;
        let k = b[n].0;
        assert(m.contains_key(k));
        let j = choose|j: int| 0 <= j < a.len() && (#[trigger] a[j]).0 == k;
        lemma_listings_agree(a, b, m, n - 1);
        assert(a[j] == b[j]);
        assert(bytes_below(encode_utf8(b[j].0), encode_utf8(b[n].0)));
        lemma_below_asymmetric(encode_utf8(k), encode_utf8(k));
    }
}

} // verus!
