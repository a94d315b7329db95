use vstd::prelude::*;
use rss::Channel;
use crate::error::StoreError;
use crate::codec::{decode_object, encode_object, json_object, json_text, keys_unique, lemma_pairs_map, pairs_map, pairs_view};
use crate::feed::{channel_self_link, channel_text, declared_url, parse_channel, parsed, write_channel};

verus! {

/// The feed store: each canonical URL maps to exactly one channel.
pub struct Database {
    entries: Vec<(String, Channel)>,
    model: Ghost<Map<Seq<char>, Channel>>,
}

impl View for Database {
    type V = Map<Seq<char>, Channel>;

    closed spec fn view(&self) -> Map<Seq<char>, Channel> {
        self.model@
    }
}

/// What `add_channel` returns and leaves behind, given the document fetched
/// from `url`.
pub open spec fn add_outcome(m: Map<Seq<char>, Channel>, url: Seq<char>, body: Seq<char>) -> (
    Result<(), StoreError>,
    Map<Seq<char>, Channel>,
) {
    if m.contains_key(url) {
        (Err(StoreError::DuplicateKey), m)
    } else {
        update_outcome(m, url, body)
    }
}

/// What `update_channel` returns and leaves behind, given the document
/// fetched from `url`.
pub open spec fn update_outcome(m: Map<Seq<char>, Channel>, url: Seq<char>, body: Seq<char>) -> (
    Result<(), StoreError>,
    Map<Seq<char>, Channel>,
) {
    match parsed(body) {
        None => (Err(StoreError::ParseError), m),
        Some(c) => (Ok(()), m.insert(url, c)),
    }
}

/// What `rm_channel` returns and leaves behind.
pub open spec fn remove_outcome(m: Map<Seq<char>, Channel>, url: Seq<char>) -> (
    Result<Channel, StoreError>,
    Map<Seq<char>, Channel>,
) {
    if m.contains_key(url) {
        (Ok(m[url]), m.remove(url))
    } else {
        (Err(StoreError::NotFound), m)
    }
}

/// What `add_channel_from_file` returns and leaves behind, given the text of
/// the local document: the key is the URL that the document declares.
pub open spec fn add_document_outcome(m: Map<Seq<char>, Channel>, text: Seq<char>) -> (
    Result<Seq<char>, StoreError>,
    Map<Seq<char>, Channel>,
) {
    match parsed(text) {
        None => (Err(StoreError::ParseError), m),
        Some(c) => match declared_url(c) {
            None => (Err(StoreError::MissingLink), m),
            Some(url) => if m.contains_key(url) {
                (Err(StoreError::DuplicateKey), m)
            } else {
                (Ok(url), m.insert(url, c))
            },
        },
    }
}

/// The persisted envelope of a store: each URL maps to its channel's text.
pub open spec fn text_view(m: Map<Seq<char>, Channel>) -> Map<Seq<char>, Seq<char>> {
    m.map_values(|c: Channel| channel_text(c))
}

/// Every text of the envelope parses as a channel.
pub open spec fn all_parse(m: Map<Seq<char>, Seq<char>>) -> bool {
    forall|k: Seq<char>| #[trigger] m.contains_key(k) ==> parsed(m[k]) is Some
}

/// The store that an envelope whose texts all parse describes.
pub open spec fn channels_of(m: Map<Seq<char>, Seq<char>>) -> Map<Seq<char>, Channel> {
    m.map_values(|t: Seq<char>| parsed(t)->Some_0)
}

impl Database {
    /// The entries hold each key once, and exactly the keys and channels of
    /// the model.
    pub closed spec fn wf(&self) -> bool {
        &&& forall|i: int, j: int|
            #![trigger self.entries@[i], self.entries@[j]]
            0 <= i < self.entries@.len() && 0 <= j < self.entries@.len() && i != j
                ==> self.entries@[i].0@ != self.entries@[j].0@
        &&& forall|i: int|
            #![trigger self.entries@[i]]
            0 <= i < self.entries@.len() ==> self.model@.contains_key(self.entries@[i].0@)
                && self.model@[self.entries@[i].0@] == self.entries@[i].1
        &&& forall|k: Seq<char>|
            #![trigger self.model@.contains_key(k)]
            self.model@.contains_key(k) ==> exists|i: int|
                0 <= i < self.entries@.len() && #[trigger] self.entries@[i].0@ == k
    }

    /// An empty store.
    pub fn new() -> (r: Database)
        ensures
            r.wf(),
            r@ == Map::<Seq<char>, Channel>::empty(),
    {
        Database { entries: Vec::new(), model: Ghost(Map::empty()) }
    }

    /// The number of stored channels.
    pub fn len(&self) -> (r: usize)
        requires
            self.wf(),
        ensures
            r == self@.len(),
    {
        proof { self.lemma_len(); }
        self.entries.len()
    }

    proof fn lemma_len(&self)
        requires
            self.wf(),
        ensures
            self.entries@.len() == self@.len(),
    {
        let keys = self.entries@.map_values(|e: (String, Channel)| e.0@);
        assert forall|i: int, j: int| 0 <= i < keys.len() && 0 <= j < keys.len() && i != j
            implies keys[i] != keys[j] by {
            assert(self.entries@[i].0@ != self.entries@[j].0@);
        }
        keys.unique_seq_to_set();
        assert forall|k: Seq<char>| #[trigger] keys.to_set().contains(k) <==> self@.dom().contains(k) by {
            if self@.dom().contains(k) {
                assert(self.model@.contains_key(k));
                let i = choose|i: int| 0 <= i < self.entries@.len() && #[trigger] self.entries@[i].0@ == k;
                assert(keys[i] == k);
            }
            if keys.to_set().contains(k) {
                let i = choose|i: int| 0 <= i < keys.len() && keys[i] == k;
                assert(self.entries@[i].0@ == k);
            }
        }
        assert(keys.to_set() =~= self@.dom());
    }

    /// The position of `url` among the entries, if it is a key.
    fn index_of(&self, url: &String) -> (r: Option<usize>)
        requires
            self.wf(),
        ensures
            match r {
                Some(i) => i < self.entries@.len() && self.entries@[i as int].0@ == url@,
                None => !self@.contains_key(url@),
            },
    {
        let mut i: usize = 0;
        while i < self.entries.len()
            invariant
                0 <= i <= self.entries@.len(),
                self.wf(),
                forall|j: int| 0 <= j < i ==> #[trigger] self.entries@[j].0@ != url@,
            decreases self.entries@.len() - i,
        {
            if self.entries[i].0 == *url {
                return Some(i);
            }
            i = i + 1;
        }
        None
    }

    /// Whether `url` is a key of the store.
    pub fn contains_channel(&self, url: &str) -> (r: bool)
        requires
            self.wf(),
        ensures
            r == self@.contains_key(url@),
    {
        let key = url.to_owned();
        self.index_of(&key).is_some()
    }

    /// The channel stored under `url`, if any.
    pub fn get_channel(&self, url: &str) -> (r: Option<&Channel>)
        requires
            self.wf(),
        ensures
            match r {
                Some(c) => self@.contains_key(url@) && *c == self@[url@],
                None => !self@.contains_key(url@),
            },
    {
        let key = url.to_owned();
        match self.index_of(&key) {
            Some(i) => Some(&self.entries[i].1),
            None => None,
        }
    }

    /// Inserts a channel under a key that is not yet present.
    fn insert_new(&mut self, url: String, c: Channel)
        requires
            old(self).wf(),
            !old(self)@.contains_key(url@),
        ensures
            final(self).wf(),
            final(self)@ == old(self)@.insert(url@, c),
    {
        let ghost key = url@;
        let ghost old_entries = self.entries@;
        self.entries.push((url, c));
        self.model = Ghost(self.model@.insert(key, c));
        proof {
            let n = old_entries.len() as int;
            assert forall|i: int| 0 <= i < n implies #[trigger] self.entries@[i] == old_entries[i] by {}
            assert(self.entries@[n].0@ == key);
            assert forall|k: Seq<char>| #[trigger] self.model@.contains_key(k) implies exists|i: int|
                0 <= i < self.entries@.len() && #[trigger] self.entries@[i].0@ == k by {
                if k == key {
                    assert(self.entries@[n].0@ == k);
                } else {
                    assert(old(self).model@.contains_key(k));
                    let i = choose|i: int| 0 <= i < old_entries.len() && #[trigger] old_entries[i].0@ == k;
                    assert(self.entries@[i].0@ == k);
                }
            }
        }
    }

    /// Puts `c` under `url`, replacing what was stored there.
    fn upsert(&mut self, url: String, c: Channel)
        requires
            old(self).wf(),
        ensures
            final(self).wf(),
            final(self)@ == old(self)@.insert(url@, c),
    {
        match self.index_of(&url) {
            None => self.insert_new(url, c),
            Some(i) => {
                let ghost key = url@;
                let ghost old_entries = self.entries@;
                self.entries.set(i, (url, c));
                self.model = Ghost(self.model@.insert(key, c));
                proof {
                    assert forall|j: int| 0 <= j < old_entries.len() && j != i implies
                        #[trigger] self.entries@[j] == old_entries[j] by {}
                    assert(self.entries@[i as int].0@ == key);
                    assert forall|k: Seq<char>| #[trigger] self.model@.contains_key(k) implies exists|j: int|
                        0 <= j < self.entries@.len() && #[trigger] self.entries@[j].0@ == k by {
                        if k == key {
                            assert(self.entries@[i as int].0@ == k);
                        } else {
                            assert(old(self).model@.contains_key(k));
                            let j = choose|j: int| 0 <= j < old_entries.len() && #[trigger] old_entries[j].0@ == k;
                            assert(self.entries@[j].0@ == k);
                        }
                    }
                }
            },
        }
    }

    /// Adds the channel parsed from `body`, the document fetched from `url`,
    /// under `url`. Fails with `DuplicateKey`, before looking at `body`, if
    /// `url` is already a key, and with `ParseError` if `body` is not a feed.
    pub fn add_channel(&mut self, url: &str, body: &str) -> (r: Result<(), StoreError>)
        requires
            old(self).wf(),
        ensures
            final(self).wf(),
            (r, final(self)@) == add_outcome(old(self)@, url@, body@),
    {
        if self.contains_channel(url) {
            return Err(StoreError::DuplicateKey);
        }
        self.update_channel(url, body)
    }

    /// Adds or replaces the channel under `url` with the one parsed from
    /// `body`, the document fetched from `url`. Fails with `ParseError`, and
    /// leaves the store as it was, if `body` is not a feed.
    pub fn update_channel(&mut self, url: &str, body: &str) -> (r: Result<(), StoreError>)
        requires
            old(self).wf(),
        ensures
            final(self).wf(),
            (r, final(self)@) == update_outcome(old(self)@, url@, body@),
    {
        match parse_channel(body) {
            None => Err(StoreError::ParseError),
            Some(c) => {
                self.upsert(url.to_owned(), c);
                Ok(())
            },
        }
    }

    /// Adds the channel of a local document under the URL that the document
    /// declares as its own (its Atom self link), and returns that URL.
    pub fn add_channel_from_file(&mut self, text: &str) -> (r: Result<String, StoreError>)
        requires
            old(self).wf(),
        ensures
            final(self).wf(),
            final(self)@ == add_document_outcome(old(self)@, text@).1,
            match r {
                Ok(url) => add_document_outcome(old(self)@, text@).0 == Ok::<Seq<char>, StoreError>(url@),
                Err(e) => add_document_outcome(old(self)@, text@).0 == Err::<Seq<char>, StoreError>(e),
            },
    {
        let c = match parse_channel(text) {
            None => return Err(StoreError::ParseError),
            Some(c) => c,
        };
        let url = match channel_self_link(&c) {
            Err(e) => return Err(e),
            Ok(url) => url,
        };
        if self.index_of(&url).is_some() {
            return Err(StoreError::DuplicateKey);
        }
        let key = url.clone();
        self.insert_new(key, c);
        Ok(url)
    }

    /// Removes and returns the channel under `url`; fails with `NotFound`,
    /// leaving the store as it was, if `url` is not a key.
    pub fn rm_channel(&mut self, url: &str) -> (r: Result<Channel, StoreError>)
        requires
            old(self).wf(),
        ensures
            final(self).wf(),
            (r, final(self)@) == remove_outcome(old(self)@, url@),
    {
        let key = url.to_owned();
        let i = match self.index_of(&key) {
            None => return Err(StoreError::NotFound),
            Some(i) => i,
        };
        let ghost old_entries = self.entries@;
        let (_, c) = self.entries.remove(i);
        self.model = Ghost(self.model@.remove(key@));
        proof {
            let n = old_entries.len() as int;
            assert forall|j: int| 0 <= j < n - 1 implies #[trigger] self.entries@[j]
                == if j < i { old_entries[j] } else { old_entries[j + 1] } by {}
            assert forall|j: int| #![trigger self.entries@[j]] 0 <= j < n - 1 implies self.entries@[j].0@ != key@ by {
                if j < i {
                    assert(old_entries[j].0@ != old_entries[i as int].0@);
                } else {
                    assert(old_entries[j + 1].0@ != old_entries[i as int].0@);
                }
            }
            assert forall|i1: int, j1: int|
                #![trigger self.entries@[i1], self.entries@[j1]]
                0 <= i1 < n - 1 && 0 <= j1 < n - 1 && i1 != j1 implies self.entries@[i1].0@ != self.entries@[j1].0@ by {
                let a = if i1 < i { i1 } else { i1 + 1 };
                let b = if j1 < i { j1 } else { j1 + 1 };
                assert(old_entries[a].0@ != old_entries[b].0@);
            }
            assert forall|j: int| #![trigger self.entries@[j]] 0 <= j < n - 1 implies self.model@.contains_key(self.entries@[j].0@)
                && self.model@[self.entries@[j].0@] == self.entries@[j].1 by {
                let a = if j < i { j } else { j + 1 };
                assert(old_entries[a] == self.entries@[j]);
            }
            assert forall|k: Seq<char>| #[trigger] self.model@.contains_key(k) implies exists|j: int|
                0 <= j < self.entries@.len() && #[trigger] self.entries@[j].0@ == k by {
                assert(old(self).model@.contains_key(k));
                let a = choose|a: int| 0 <= a < old_entries.len() && #[trigger] old_entries[a].0@ == k;
                if a < i {
                    assert(self.entries@[a].0@ == k);
                } else {
                    assert(a != i);
                    assert(self.entries@[a - 1].0@ == k);
                }
            }
        }
        Ok(c)
    }

    /// The URLs of the store, each once.
    pub fn channel_urls(&self) -> (r: Vec<String>)
        requires
            self.wf(),
        ensures
            r@.len() == self@.len(),
            forall|i: int, j: int| 0 <= i < r@.len() && 0 <= j < r@.len() && i != j
                ==> #[trigger] r@[i]@ != #[trigger] r@[j]@,
            forall|i: int| 0 <= i < r@.len() ==> self@.contains_key(#[trigger] r@[i]@),
            forall|k: Seq<char>| #[trigger] self@.contains_key(k) ==> exists|i: int| 0 <= i < r@.len() && r@[i]@ == k,
    {
        proof { self.lemma_len(); }
        let mut out: Vec<String> = Vec::new();
        let mut i: usize = 0;
        while i < self.entries.len()
            invariant
                0 <= i <= self.entries@.len(),
                self.wf(),
                out@.len() == i,
                forall|j: int| 0 <= j < i ==> #[trigger] out@[j]@ == self.entries@[j].0@,
            decreases self.entries@.len() - i,
        {
            out.push(self.entries[i].0.clone());
            i = i + 1;
        }
        proof {
            assert forall|a: int, b: int| 0 <= a < out@.len() && 0 <= b < out@.len() && a != b
                implies #[trigger] out@[a]@ != #[trigger] out@[b]@ by {
                assert(self.entries@[a].0@ != self.entries@[b].0@);
            }
            assert forall|a: int| 0 <= a < out@.len() implies self@.contains_key(#[trigger] out@[a]@) by {
                assert(self.model@.contains_key(self.entries@[a].0@));
            }
            assert forall|k: Seq<char>| #[trigger] self@.contains_key(k) implies exists|a: int| 0 <= a < out@.len() && out@[a]@ == k by {
                assert(self.model@.contains_key(k));
                let a = choose|a: int| 0 <= a < self.entries@.len() && #[trigger] self.entries@[a].0@ == k;
                assert(out@[a]@ == k);
            }
        }
        out
    }

    /// The persisted text of the store: one JSON object mapping each URL to
    /// its channel's own document text.
    pub fn to_string(&self) -> (r: String)
        requires
            self.wf(),
        ensures
            r@ == json_text(text_view(self@)),
    {
        let mut out: Vec<(String, String)> = Vec::new();
        let mut i: usize = 0;
        while i < self.entries.len()
            invariant
                0 <= i <= self.entries@.len(),
                self.wf(),
                out@.len() == i,
                forall|j: int| #![trigger out@[j]] 0 <= j < i ==> out@[j].0@ == self.entries@[j].0@
                    && out@[j].1@ == channel_text(self.entries@[j].1),
            decreases self.entries@.len() - i,
        {
            let text = write_channel(&self.entries[i].1);
            out.push((self.entries[i].0.clone(), text));
            i = i + 1;
        }
        let ghost s = pairs_view(out@);
        proof {
            assert forall|a: int, b: int| #![trigger s[a], s[b]]
                0 <= a < s.len() && 0 <= b < s.len() && a != b implies s[a].0 != s[b].0 by {
                assert(out@[a].0@ == self.entries@[a].0@ && out@[b].0@ == self.entries@[b].0@);
                assert(self.entries@[a].0@ != self.entries@[b].0@);
            }
            lemma_pairs_map(s);
            assert forall|k: Seq<char>| #[trigger] pairs_map(s).contains_key(k)
                <==> text_view(self@).contains_key(k) by {
                if pairs_map(s).contains_key(k) {
                    let a = choose|a: int| 0 <= a < s.len() && s[a].0 == k;
                    assert(out@[a].0@ == self.entries@[a].0@);
                    assert(self.model@.contains_key(self.entries@[a].0@));
                }
                if text_view(self@).contains_key(k) {
                    assert(self.model@.contains_key(k));
                    let a = choose|a: int| 0 <= a < self.entries@.len() && #[trigger] self.entries@[a].0@ == k;
                    assert(s[a].0 == out@[a].0@);
                }
            }
            assert forall|k: Seq<char>| #[trigger] pairs_map(s).contains_key(k)
                implies pairs_map(s)[k] == text_view(self@)[k] by {
                let a = choose|a: int| 0 <= a < s.len() && s[a].0 == k;
                assert(out@[a].0@ == self.entries@[a].0@);
                assert(self.model@[self.entries@[a].0@] == self.entries@[a].1);
            }
            assert(pairs_map(s) =~= text_view(self@));
        }
        encode_object(&out)
    }

    /// Rebuilds a store from its persisted text. Fails with `ParseError` if
    /// the text is not a JSON object of strings, and with `CorruptEntry`
    /// naming a URL whose text does not parse as a feed.
    pub fn from_str(text: &str) -> (r: Result<Database, StoreError>)
        ensures
            match json_object(text@) {
                None => r == Err::<Database, StoreError>(StoreError::ParseError),
                Some(m) => match r {
                    Ok(db) => all_parse(m) && db.wf() && db@ == channels_of(m),
                    Err(e) => !all_parse(m) && exists|k: String| e == StoreError::CorruptEntry(k)
                        && #[trigger] m.contains_key(k@) && parsed(m[k@]) is None,
                },
            },
    {
        let pairs = match decode_object(text) {
            None => return Err(StoreError::ParseError),
            Some(v) => v,
        };
        let ghost s = pairs_view(pairs@);
        let ghost m = pairs_map(s);
        proof { lemma_pairs_map(s); }
        let mut db = Database::new();
        let mut i: usize = 0;
        while i < pairs.len()
            invariant
                0 <= i <= pairs@.len(),
                s == pairs_view(pairs@),
                keys_unique(s),
                m == pairs_map(s),
                json_object(text@) == Some(m),
                forall|j: int| 0 <= j < s.len() ==> #[trigger] m.contains_key(s[j].0) && m[s[j].0] == s[j].1,
                db.wf(),
                db@ == channels_of(pairs_map(s.subrange(0, i as int))),
                forall|j: int| 0 <= j < i ==> parsed(#[trigger] s[j].1) is Some,
            decreases pairs@.len() - i,
        {
            let key = pairs[i].0.clone();
            assert(s[i as int] == (pairs@[i as int].0@, pairs@[i as int].1@));
            assert(key@ == s[i as int].0);
            assert(m.contains_key(s[i as int].0) && m[s[i as int].0] == s[i as int].1);
            match parse_channel(&pairs[i].1) {
                None => {
                    assert(parsed(s[i as int].1) is None);
                    assert(m.contains_key(key@) && parsed(m[key@]) is None);
                    return Err(StoreError::CorruptEntry(key));
                },
                Some(c) => {
                    let ghost before = s.subrange(0, i as int);
                    let ghost after = s.subrange(0, i + 1);
                    proof {
                        assert(after.drop_last() =~= before);
                        assert forall|a: int, b: int| #![trigger before[a], before[b]]
                            0 <= a < before.len() && 0 <= b < before.len() && a != b implies before[a].0 != before[b].0 by {
                            assert(before[a] == s[a] && before[b] == s[b]);
                        }
                        lemma_pairs_map(before);
                        if pairs_map(before).contains_key(key@) {
                            let a = choose|a: int| 0 <= a < before.len() && before[a].0 == key@;
                            assert(before[a] == s[a]);
                            assert(s[a].0 != s[i as int].0);
                        }
                    }
                    db.insert_new(key, c);
                    proof {
                        assert(channels_of(pairs_map(after)) =~= channels_of(pairs_map(before)).insert(s[i as int].0, c));
                    }
                },
            }
            i = i + 1;
        }
        proof {
            assert(s.subrange(0, s.len() as int) =~= s);
            assert forall|k: Seq<char>| #[trigger] m.contains_key(k) implies parsed(m[k]) is Some by {
                let a = choose|a: int| 0 <= a < s.len() && s[a].0 == k;
                assert(m[s[a].0] == s[a].1);
            }
        }
        Ok(db)
    }
}

} // verus!
