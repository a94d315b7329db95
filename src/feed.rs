use vstd::prelude::*;
use rss::Channel;
use crate::error::StoreError;

verus! {

/// A parsed feed document; opaque to the proofs.
#[verifier::external_type_specification]
#[verifier::external_body]
pub struct ExChannel(rss::Channel);

/// The channel that `rss` parses out of a document text, if it parses.
pub uninterp spec fn parsed(text: Seq<char>) -> Option<Channel>;

/// The document text that `rss` writes for a channel.
pub uninterp spec fn channel_text(c: Channel) -> Seq<char>;

/// The extension elements that `rss` kept of a channel, one record per
/// element, grouped by namespace prefix and local name in the order of the
/// channel's extension map.
pub uninterp spec fn extension_elements(c: Channel) -> Seq<ElementView>;

/// Relies on `<rss::Channel as FromStr>::from_str` (which is
/// `Channel::read_from` on the bytes): the outcome depends on the text alone.
#[verifier::external_body]
pub(crate) fn parse_channel(text: &str) -> (r: Option<Channel>)
    ensures
        r == parsed(text@),
{
    <Channel as std::str::FromStr>::from_str(text).ok()
}

/// Relies on `<rss::Channel as Display>` (which writes the channel with
/// `Channel::write_to`): the text depends on the channel alone.
#[verifier::external_body]
pub(crate) fn write_channel(c: &Channel) -> (r: String)
    ensures
        r@ == channel_text(*c),
{
    c.to_string()
}

/// Relies on `rss::Channel::extensions`: reads the extension map out as plain
/// records, one per element, keeping the map's order.
#[verifier::external_body]
pub(crate) fn read_extensions(c: &Channel) -> (r: Vec<ExtensionElement>)
    ensures
        r@.map_values(|e: ExtensionElement| e@) == extension_elements(*c),
{
    let mut out = Vec::new();
    for (prefix, groups) in c.extensions().iter() {
        for (local, elems) in groups.iter() {
            for e in elems.iter() {
                let attrs = e.attrs.iter().map(|(k, v)| (k.clone(), v.clone())).collect();
                out.push(ExtensionElement { prefix: prefix.clone(), local: local.clone(), name: e.name.clone(), attrs });
            }
        }
    }
    out
}

/// One extension element of a channel: the namespace prefix and local name it
/// is filed under, its qualified name, and its attributes in key order.
#[derive(Debug)]
pub struct ExtensionElement {
    pub prefix: String,
    pub local: String,
    pub name: String,
    pub attrs: Vec<(String, String)>,
}

/// The value of an [`ExtensionElement`].
pub struct ElementView {
    pub prefix: Seq<char>,
    pub local: Seq<char>,
    pub name: Seq<char>,
    pub attrs: Seq<(Seq<char>, Seq<char>)>,
}

impl View for ExtensionElement {
    type V = ElementView;

    open spec fn view(&self) -> ElementView {
        ElementView {
            prefix: self.prefix@,
            local: self.local@,
            name: self.name@,
            attrs: self.attrs@.map_values(|p: (String, String)| (p.0@, p.1@)),
        }
    }
}

/// The value of the first attribute named `key`, if any.
pub open spec fn attr_value(attrs: Seq<(Seq<char>, Seq<char>)>, key: Seq<char>) -> Option<Seq<char>>
    decreases attrs.len(),
{
    if attrs.len() == 0 {
        None
    } else if attrs[0].0 == key {
        Some(attrs[0].1)
    } else {
        attr_value(attrs.drop_first(), key)
    }
}

/// An `atom:link` element filed under the Atom prefix whose relation is absent
/// or `self`.
pub open spec fn is_self_link(e: ElementView) -> bool {
    &&& e.prefix == "atom"@
    &&& e.local == "link"@
    &&& e.name == "atom:link"@
    &&& match attr_value(e.attrs, "rel"@) {
        None => true,
        Some(rel) => rel == "self"@,
    }
}

/// The `href` of the first self link among the elements; `None` where there
/// is no self link or the first one has no `href`.
pub open spec fn self_link_href(elems: Seq<ElementView>) -> Option<Seq<char>>
    decreases elems.len(),
{
    if elems.len() == 0 {
        None
    } else if is_self_link(elems[0]) {
        attr_value(elems[0].attrs, "href"@)
    } else {
        self_link_href(elems.drop_first())
    }
}

/// The canonical URL that a channel declares for itself.
pub open spec fn declared_url(c: Channel) -> Option<Seq<char>> {
    self_link_href(extension_elements(c))
}

/// Looks up the first attribute named `key`.
pub fn find_attr(attrs: &Vec<(String, String)>, key: &String) -> (r: Option<String>)
    ensures
        match r {
            Some(v) => attr_value(attrs@.map_values(|p: (String, String)| (p.0@, p.1@)), key@) == Some(v@),
            None => attr_value(attrs@.map_values(|p: (String, String)| (p.0@, p.1@)), key@) is None,
        },
{
    let ghost all = attrs@.map_values(|p: (String, String)| (p.0@, p.1@));
    assert(all.subrange(0, all.len() as int) =~= all);
    let mut i: usize = 0;
    while i < attrs.len()
        invariant
            0 <= i <= attrs.len(),
            all == attrs@.map_values(|p: (String, String)| (p.0@, p.1@)),
            attr_value(all, key@) == attr_value(all.subrange(i as int, all.len() as int), key@),
        decreases attrs.len() - i,
    {
        let ghost rest = all.subrange(i as int, all.len() as int);
        assert(rest[0] == all[i as int]);
        if attrs[i].0 == *key {
            return Some(attrs[i].1.clone());
        }
        assert(rest.drop_first() =~= all.subrange(i + 1, all.len() as int));
        i = i + 1;
    }
    assert(all.subrange(i as int, all.len() as int) =~= Seq::empty());
    None
}

/// Finds the URL that a channel's extension elements declare as the channel's
/// own: the `href` of the first self link.
pub fn find_self_link(elems: &Vec<ExtensionElement>) -> (r: Result<String, StoreError>)
    ensures
        match r {
            Ok(url) => self_link_href(elems@.map_values(|e: ExtensionElement| e@)) == Some(url@),
            Err(e) => e == StoreError::MissingLink
                && self_link_href(elems@.map_values(|e: ExtensionElement| e@)) is None,
        },
{
    let ghost all = elems@.map_values(|e: ExtensionElement| e@);
    let atom = String::from_str("atom");
    let link = String::from_str("link");
    let atom_link = String::from_str("atom:link");
    let rel = String::from_str("rel");
    let self_rel = String::from_str("self");
    let href = String::from_str("href");
    assert(all.subrange(0, all.len() as int) =~= all);
    let mut i: usize = 0;
    while i < elems.len()
        invariant
            0 <= i <= elems.len(),
            all == elems@.map_values(|e: ExtensionElement| e@),
            atom@ == "atom"@,
            link@ == "link"@,
            atom_link@ == "atom:link"@,
            rel@ == "rel"@,
            self_rel@ == "self"@,
            href@ == "href"@,
            self_link_href(all) == self_link_href(all.subrange(i as int, all.len() as int)),
        decreases elems.len() - i,
    {
        let ghost rest = all.subrange(i as int, all.len() as int);
        let e = &elems[i];
        assert(rest[0] == e@);
        if e.prefix == atom && e.local == link && e.name == atom_link {
            let rel_ok = match find_attr(&e.attrs, &rel) {
                None => true,
                Some(v) => v == self_rel,
            };
            if rel_ok {
                return match find_attr(&e.attrs, &href) {
                    Some(url) => Ok(url),
                    None => Err(StoreError::MissingLink),
                };
            }
        }
        assert(rest.drop_first() =~= all.subrange(i + 1, all.len() as int));
        i = i + 1;
    }
    assert(all.subrange(i as int, all.len() as int) =~= Seq::empty());
    Err(StoreError::MissingLink)
}

/// Finds the canonical URL that a parsed channel declares for itself.
pub fn channel_self_link(c: &Channel) -> (r: Result<String, StoreError>)
    ensures
        match r {
            Ok(url) => declared_url(*c) == Some(url@),
            Err(e) => e == StoreError::MissingLink && declared_url(*c) is None,
        },
{
    let elems = read_extensions(c);
    find_self_link(&elems)
}

} // verus!
