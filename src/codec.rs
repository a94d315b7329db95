use vstd::prelude::*;
use std::collections::BTreeMap;

verus! {

/// The JSON text that `serde_json` writes for an object of string members.
pub uninterp spec fn json_text(m: Map<Seq<char>, Seq<char>>) -> Seq<char>;

/// The object of string members that `serde_json` reads out of a text, if the
/// text is one.
pub uninterp spec fn json_object(text: Seq<char>) -> Option<Map<Seq<char>, Seq<char>>>;

/// The values of a sequence of string pairs.
pub open spec fn pairs_view(v: Seq<(String, String)>) -> Seq<(Seq<char>, Seq<char>)> {
    v.map_values(|p: (String, String)| (p.0@, p.1@))
}

/// No key occurs twice.
pub open spec fn keys_unique(s: Seq<(Seq<char>, Seq<char>)>) -> bool {
    forall|i: int, j: int|
        #![trigger s[i], s[j]]
        0 <= i < s.len() && 0 <= j < s.len() && i != j ==> s[i].0 != s[j].0
}

/// The map that holds each pair of the sequence, later pairs winning.
pub open spec fn pairs_map(s: Seq<(Seq<char>, Seq<char>)>) -> Map<Seq<char>, Seq<char>>
    decreases s.len(),
{
    if s.len() == 0 {
        Map::empty()
    } else {
        pairs_map(s.drop_last()).insert(s.last().0, s.last().1)
    }
}

/// With unique keys, the map of a sequence holds exactly its pairs.
pub proof fn lemma_pairs_map(s: Seq<(Seq<char>, Seq<char>)>)
    requires
        keys_unique(s),
    ensures
        forall|i: int| 0 <= i < s.len() ==> #[trigger] pairs_map(s).contains_key(s[i].0)
            && pairs_map(s)[s[i].0] == s[i].1,
        forall|k: Seq<char>| #[trigger] pairs_map(s).contains_key(k) ==> exists|i: int|
            0 <= i < s.len() && s[i].0 == k,
    decreases s.len(),
{
    if s.len() > 0 {
        let p = s.drop_last();
        assert forall|i: int, j: int| #![trigger p[i], p[j]]
            0 <= i < p.len() && 0 <= j < p.len() && i != j implies p[i].0 != p[j].0 by {
            assert(s[i] == p[i] && s[j] == p[j]);
        }
        lemma_pairs_map(p);
        let n = s.len() - 1;
        assert(!pairs_map(p).contains_key(s[n].0)) by {
            if pairs_map(p).contains_key(s[n].0) {
                let i = choose|i: int| 0 <= i < p.len() && p[i].0 == s[n].0;
                assert(s[i] == p[i]);
            }
        }
        assert forall|i: int| 0 <= i < s.len() implies #[trigger] pairs_map(s).contains_key(s[i].0)
            && pairs_map(s)[s[i].0] == s[i].1 by {
            if i < n {
                assert(s[i] == p[i]);
                assert(s[i].0 != s[n].0);
            }
        }
        assert forall|k: Seq<char>| #[trigger] pairs_map(s).contains_key(k) implies exists|i: int|
            0 <= i < s.len() && s[i].0 == k by {
            if k != s[n].0 {
                let i = choose|i: int| 0 <= i < p.len() && p[i].0 == k;
                assert(s[i] == p[i]);
            }
        }
    }
}

/// Relies on `serde_json::to_string` of a `BTreeMap<String, String>`: one
/// JSON object whose text depends on the map alone (members in key order).
/// Writing a map of strings to a string does not fail.
#[verifier::external_body]
pub(crate) fn encode_object(pairs: &Vec<(String, String)>) -> (r: String)
    requires
        keys_unique(pairs_view(pairs@)),
    ensures
        r@ == json_text(pairs_map(pairs_view(pairs@))),
{
    let m: BTreeMap<String, String> = pairs.iter().cloned().collect();
    serde_json::to_string(&m).unwrap_or_default()
}

/// Relies on `serde_json::from_str` into a `BTreeMap<String, String>`: the
/// outcome depends on the text alone, and the map holds each key once.
#[verifier::external_body]
pub(crate) fn decode_object(text: &str) -> (r: Option<Vec<(String, String)>>)
    ensures
        match r {
            None => json_object(text@) is None,
            Some(v) => keys_unique(pairs_view(v@)) && json_object(text@) == Some(pairs_map(pairs_view(v@))),
        },
{
    serde_json::from_str::<BTreeMap<String, String>>(text).ok().map(|m| m.into_iter().collect())
}

} // verus!
