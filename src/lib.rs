//! A local store of syndication feeds keyed by their canonical URL, with a
//! persistence envelope that maps each URL to its feed's own document text.
mod codec;
mod error;
mod feed;
mod laws;
mod store;

pub use error::StoreError;
pub use feed::{
    attr_value, channel_self_link, channel_text, declared_url, extension_elements, find_attr,
    find_self_link, is_self_link, parsed, self_link_href, ElementView, ExtensionElement,
};
pub use codec::{json_object, json_text, keys_unique, lemma_pairs_map, pairs_map, pairs_view};
pub use store::{add_document_outcome, add_outcome, all_parse, channels_of, text_view, remove_outcome, update_outcome, Database};
pub use laws::{
    lemma_add_get_remove, lemma_add_twice, lemma_document_key, lemma_document_without_atom,
    lemma_no_atom_block, lemma_remove_absent, lemma_remove_other, lemma_round_trip, lemma_update_upsert,
};
