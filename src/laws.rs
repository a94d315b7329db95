use vstd::prelude::*;
use rss::Channel;
use crate::codec::{json_object, json_text};
use crate::error::StoreError;
use crate::feed::{channel_text, declared_url, extension_elements, is_self_link, parsed, self_link_href, ElementView};
use crate::store::{
    add_document_outcome, add_outcome, all_parse, channels_of, remove_outcome, text_view, update_outcome,
};

verus! {

/// Adding a URL a second time right after it was added fails with
/// `DuplicateKey` and leaves the store as the first add left it, holding the
/// URL once.
pub proof fn lemma_add_twice(m: Map<Seq<char>, Channel>, url: Seq<char>, first: Seq<char>, second: Seq<char>)
    requires
        add_outcome(m, url, first).0 is Ok,
    ensures
        add_outcome(m, url, first).1.contains_key(url),
        add_outcome(add_outcome(m, url, first).1, url, second)
            == (Err::<(), StoreError>(StoreError::DuplicateKey), add_outcome(m, url, first).1),
{
}

/// Removing a URL that is not a key fails with `NotFound` and changes nothing.
pub proof fn lemma_remove_absent(m: Map<Seq<char>, Channel>, url: Seq<char>)
    requires
        !m.contains_key(url),
    ensures
        remove_outcome(m, url) == (Err::<Channel, StoreError>(StoreError::NotFound), m),
{
}

/// After a successful add the URL holds the channel parsed from the fetched
/// document; after a successful remove the URL is no longer a key.
pub proof fn lemma_add_get_remove(m: Map<Seq<char>, Channel>, url: Seq<char>, body: Seq<char>)
    requires
        add_outcome(m, url, body).0 is Ok,
    ensures
        parsed(body) is Some,
        add_outcome(m, url, body).1.contains_key(url),
        add_outcome(m, url, body).1[url] == parsed(body)->Some_0,
        remove_outcome(add_outcome(m, url, body).1, url).0 == Ok::<Channel, StoreError>(parsed(body)->Some_0),
        !remove_outcome(add_outcome(m, url, body).1, url).1.contains_key(url),
{
}

/// Updating an absent URL inserts it; updating it again replaces its channel
/// and never fails with `DuplicateKey`.
pub proof fn lemma_update_upsert(m: Map<Seq<char>, Channel>, url: Seq<char>, first: Seq<char>, second: Seq<char>)
    requires
        !m.contains_key(url),
        parsed(first) is Some,
        parsed(second) is Some,
    ensures
        update_outcome(m, url, first) == (Ok::<(), StoreError>(()), m.insert(url, parsed(first)->Some_0)),
        update_outcome(update_outcome(m, url, first).1, url, second)
            == (Ok::<(), StoreError>(()), m.insert(url, parsed(second)->Some_0)),
        update_outcome(update_outcome(m, url, first).1, url, second).1.dom()
            == update_outcome(m, url, first).1.dom(),
{
    assert(m.insert(url, parsed(first)->Some_0).insert(url, parsed(second)->Some_0)
        =~= m.insert(url, parsed(second)->Some_0));
    assert(m.insert(url, parsed(second)->Some_0).dom() =~= m.insert(url, parsed(first)->Some_0).dom());
}

/// Removing one URL leaves the channel stored under any other URL as it was.
pub proof fn lemma_remove_other(m: Map<Seq<char>, Channel>, kept: Seq<char>, removed: Seq<char>)
    requires
        m.contains_key(kept),
        kept != removed,
    ensures
        remove_outcome(m, removed).1.contains_key(kept),
        remove_outcome(m, removed).1[kept] == m[kept],
{
}

/// A local document that parses and declares `url` as its own, not yet a
/// key, is added under exactly that URL.
pub proof fn lemma_document_key(m: Map<Seq<char>, Channel>, text: Seq<char>, url: Seq<char>)
    requires
        parsed(text) is Some,
        declared_url(parsed(text)->Some_0) == Some(url),
        !m.contains_key(url),
    ensures
        add_document_outcome(m, text)
            == (Ok::<Seq<char>, StoreError>(url), m.insert(url, parsed(text)->Some_0)),
{
}

/// Without any element under the Atom prefix there is no self link.
pub proof fn lemma_no_atom_block(elems: Seq<ElementView>)
    requires
        forall|i: int| 0 <= i < elems.len() ==> (#[trigger] elems[i]).prefix != "atom"@,
    ensures
        self_link_href(elems) is None,
    decreases elems.len(),
{
    if elems.len() > 0 {
        assert(!is_self_link(elems[0]));
        assert forall|i: int| 0 <= i < elems.len() - 1 implies (#[trigger] elems.drop_first()[i]).prefix
            != "atom"@ by {
            assert(elems.drop_first()[i] == elems[i + 1]);
        }
        lemma_no_atom_block(elems.drop_first());
    }
}

/// A local document without any element under the Atom prefix fails with
/// `MissingLink` and changes nothing.
pub proof fn lemma_document_without_atom(m: Map<Seq<char>, Channel>, text: Seq<char>)
    requires
        parsed(text) is Some,
        forall|i: int| 0 <= i < extension_elements(parsed(text)->Some_0).len()
            ==> (#[trigger] extension_elements(parsed(text)->Some_0)[i]).prefix != "atom"@,
    ensures
        add_document_outcome(m, text) == (Err::<Seq<char>, StoreError>(StoreError::MissingLink), m),
{
    lemma_no_atom_block(extension_elements(parsed(text)->Some_0));
}

/// Saving a store and loading the text back gives, under the same URLs,
/// channels with the same document text. This holds wherever the JSON text of
/// the envelope reads back as the envelope, and each channel's text parses to
/// a channel that writes the same text.
pub proof fn lemma_round_trip(m: Map<Seq<char>, Channel>)
    requires
        json_object(json_text(text_view(m))) == Some(text_view(m)),
        forall|k: Seq<char>| #[trigger] m.contains_key(k) ==> parsed(channel_text(m[k])) is Some
            && channel_text(parsed(channel_text(m[k]))->Some_0) == channel_text(m[k]),
    ensures
        json_object(json_text(text_view(m))) is Some,
        all_parse(json_object(json_text(text_view(m)))->Some_0),
        text_view(channels_of(json_object(json_text(text_view(m)))->Some_0)) == text_view(m),
{
    let e = text_view(m);
    assert forall|k: Seq<char>| #[trigger] e.contains_key(k) implies parsed(e[k]) is Some by {
        assert(m.contains_key(k));
    }
    assert(text_view(channels_of(e)) =~= e);
}

} // verus!
