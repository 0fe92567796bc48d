use crate::decoding::{decode, law_decode_round_trip};
use crate::digest::{
    digest_from, digest_text, digest_text_decoding, empty_digest, law_digest_text_injective,
    lemma_digest_from, sha2_256, sha2_256_of, HexError, D,
};
use crate::encoding::node_text;
use crate::value::{Node, NodeView};
use vstd::prelude::*;
use vstd::std_specs::cmp::PartialEqSpec;
use vstd::utf8::encode_utf8;

verus! {

/// The content digest of a node: the SHA-256 hash of the UTF-8 bytes of its
/// canonical text.
pub open spec fn digest_of(n: NodeView) -> D {
    digest_from(sha2_256_of(encode_utf8(node_text(n))))
}

/// A value that is identified by a digest of its content.
pub trait HasDigest {
    type Digest;

    /// The digest of the value.
    spec fn digest_spec(&self) -> Self::Digest;

    /// Computes the digest of the value.
    fn digest(&self) -> (d: Self::Digest)
        ensures
            d == self.digest_spec(),
    ;
}

impl HasDigest for Node {
    type Digest = D;

    open spec fn digest_spec(&self) -> D {
        digest_of(self@)
    }

    fn digest(&self) -> (d: D) {
        let text = self.serialize();
        let d = D { sha2_256: sha2_256(text.as_str().as_bytes()) };
        proof {
            lemma_digest_from(d);
        }
        d
    }
}

/// Nodes with the same identifier and the same value have the same digest.
pub proof fn law_digest_deterministic(a: Node, b: Node)
    requires
        a@ == b@,
    ensures
        a.digest_spec() == b.digest_spec(),
{
}

/// The map that a sequence of keys with their texts stands for.
pub open spec fn texts_of(entries: Seq<(String, String)>) -> Map<Seq<char>, Seq<char>>
    decreases entries.len(),
{
    if entries.len() == 0 {
        Map::empty()
    } else {
        texts_of(entries.drop_last()).insert(entries.last().0@, entries.last().1@)
    }
}

/// Whether no key occurs twice in a sequence of entries.
pub open spec fn distinct_keys(entries: Seq<(String, String)>) -> bool {
    forall|i: int, j: int|
        0 <= i < j < entries.len() ==> (#[trigger] entries[i]).0@ != (#[trigger] entries[j]).0@
}

proof fn lemma_texts_of(entries: Seq<(String, String)>)
    requires
        distinct_keys(entries),
    ensures
        forall|i: int|
            0 <= i < entries.len() ==> texts_of(entries).contains_key((#[trigger] entries[i]).0@)
                && texts_of(entries)[entries[i].0@] == entries[i].1@,
        forall|k: Seq<char>|
            texts_of(entries).contains_key(k) ==> exists|i: int|
                0 <= i < entries.len() && (#[trigger] entries[i]).0@ == k,
        texts_of(entries).dom().finite(),
        texts_of(entries).dom().len() == entries.len(),
    decreases entries.len(),
{
    if entries.len() > 0 {
        let front = entries.drop_last();
        let last = entries.last();
        assert forall|i: int, j: int| 0 <= i < j < front.len() implies (#[trigger] front[i]).0@ != (
        #[trigger] front[j]).0@ by {
            assert(front[i] == entries[i] && front[j] == entries[j]);
        }
        lemma_texts_of(front);
        assert forall|i: int| 0 <= i < entries.len() implies texts_of(entries).contains_key(
            (#[trigger] entries[i]).0@,
        ) && texts_of(entries)[entries[i].0@] == entries[i].1@ by {
            if i < entries.len() - 1 {
                assert(front[i] == entries[i]);
                assert(entries[i].0@ != entries[entries.len() - 1].0@);
            }
        }
        assert forall|k: Seq<char>| texts_of(entries).contains_key(k) implies exists|i: int|
            0 <= i < entries.len() && (#[trigger] entries[i]).0@ == k by {
            if k == last.0@ {
                assert(entries[entries.len() - 1].0@ == k);
            } else {
                let i = choose|i: int| 0 <= i < front.len() && (#[trigger] front[i]).0@ == k;
                assert(entries[i].0@ == k);
            }
        }
        if texts_of(front).contains_key(last.0@) {
            let i = choose|i: int| 0 <= i < front.len() && (#[trigger] front[i]).0@ == last.0@;
            assert(entries[i].0@ != entries[entries.len() - 1].0@);
        }
        assert(texts_of(entries).dom() =~= texts_of(front).dom().insert(last.0@));
    }
}

/// A store of texts under text keys, held in memory: what a browser's local
/// storage is to the editor.
#[derive(Debug)]
pub struct KeyValue {
    entries: Vec<(String, String)>,
}

impl View for KeyValue {
    type V = Map<Seq<char>, Seq<char>>;

    closed spec fn view(&self) -> Map<Seq<char>, Seq<char>> {
        texts_of(self.entries@)
    }
}

impl KeyValue {
    #[verifier::type_invariant]
    pub closed spec fn well_formed(self) -> bool {
        distinct_keys(self.entries@)
    }

    /// A store without entries.
    pub fn new() -> (store: Self)
        ensures
            store@ == Map::<Seq<char>, Seq<char>>::empty(),
    {
        KeyValue { entries: Vec::new() }
    }

    /// The number of keys.
    pub fn len(&self) -> (n: usize)
        ensures
            self@.dom().finite(),
            n == self@.dom().len(),
            n == self.keys().len(),
    {
        proof {
            use_type_invariant(self);
            lemma_texts_of(self.entries@);
            self.lemma_keys();
        }
        self.entries.len()
    }

    /// The keys of the store, in the order in which they were first set.
    pub closed spec fn keys(&self) -> Seq<Seq<char>> {
        Seq::new(self.entries@.len(), |i: int| self.entries@[i].0@)
    }

    /// The keys of the store are the keys under which it holds a text, each
    /// once.
    pub proof fn lemma_keys(&self)
        requires
            self.well_formed(),
        ensures
            self.keys().len() == self@.dom().len(),
            self.keys().no_duplicates(),
            forall|i: int| 0 <= i < self.keys().len() ==> self@.contains_key(#[trigger] self.keys()[i]),
            forall|key: Seq<char>| self@.contains_key(key) ==> #[trigger] self.keys().contains(key),
    {
        lemma_texts_of(self.entries@);
        assert forall|key: Seq<char>| self@.contains_key(key) implies #[trigger] self.keys().contains(
            key,
        ) by {
            let i = choose|i: int| 0 <= i < self.entries@.len() && (#[trigger] self.entries@[i]).0@ == key;
            assert(self.keys()[i] == key);
        }
    }

    /// The key at a place in the order of the keys.
    pub fn key_at(&self, i: usize) -> (key: &String)
        requires
            i < self.keys().len(),
        ensures
            key@ == self.keys()[i as int],
            self@.contains_key(key@),
    {
        proof {
            use_type_invariant(self);
            lemma_texts_of(self.entries@);
        }
        &self.entries[i].0
    }

    /// The text under the key at a place in the order of the keys.
    pub fn text_at(&self, i: usize) -> (text: &String)
        requires
            i < self.keys().len(),
        ensures
            self@.contains_key(self.keys()[i as int]),
            text@ == self@[self.keys()[i as int]],
    {
        proof {
            use_type_invariant(self);
            lemma_texts_of(self.entries@);
        }
        &self.entries[i].1
    }

    /// The place of a key among the entries.
    fn find(&self, key: &String) -> (place: Option<usize>)
        ensures
            match place {
                Some(i) => i < self.entries@.len() && self.entries@[i as int].0@ == key@,
                None => forall|j: int| 0 <= j < self.entries@.len() ==> (#[trigger] self.entries@[j]).0@
                    != key@,
            },
    {
        let mut i: usize = 0;
        while i < self.entries.len()
            invariant
                i <= self.entries@.len(),
                forall|j: int| 0 <= j < i ==> (#[trigger] self.entries@[j]).0@ != key@,
            decreases self.entries@.len() - i,
        {
            if self.entries[i].0 == *key {
                return Some(i);
            }
            i += 1;
        }
        None
    }

    /// The text under a key, if there is one.
    pub fn get(&self, key: &str) -> (text: Option<&String>)
        ensures
            match text {
                Some(t) => self@.contains_key(key@) && t@ == self@[key@],
                None => !self@.contains_key(key@),
            },
    {
        proof {
            use_type_invariant(self);
            lemma_texts_of(self.entries@);
        }
        let owned = key.to_owned();
        match self.find(&owned) {
            Some(i) => Some(&self.entries[i].1),
            None => None,
        }
    }

    /// Puts a text under a key, in place of the one that was there.
    pub fn set(&mut self, key: &str, text: String)
        ensures
            final(self)@ == old(self)@.insert(key@, text@),
    {
        proof {
            use_type_invariant(&*self);
            lemma_texts_of(self.entries@);
        }
        let owned = key.to_owned();
        let place = self.find(&owned);
        let ghost before = self.entries@;
        let mut entries: Vec<(String, String)> = Vec::new();
        core::mem::swap(&mut self.entries, &mut entries);
        match place {
            Some(i) => {
                entries.set(i, (owned, text));
            },
            None => {
                entries.push((owned, text));
            },
        }
        proof {
            let after = entries@;
            assert forall|i: int, j: int| 0 <= i < j < after.len() implies (#[trigger] after[i]).0@ != (
            #[trigger] after[j]).0@ by {
                if i < before.len() && j < before.len() {
                    assert(before[i].0@ != before[j].0@);
                }
            }
            lemma_texts_of(after);
            let wanted = texts_of(before).insert(key@, text@);
            assert forall|k: Seq<char>| texts_of(after).contains_key(k) == wanted.contains_key(k) by {
                if texts_of(after).contains_key(k) {
                    let i = choose|i: int| 0 <= i < after.len() && (#[trigger] after[i]).0@ == k;
                    if k != key@ {
                        assert(before[i].0@ == k);
                    }
                }
                if wanted.contains_key(k) {
                    if k != key@ {
                        let i = choose|i: int| 0 <= i < before.len() && (#[trigger] before[i]).0@ == k;
                        assert(after[i].0@ == k);
                    } else {
                        match place {
                            Some(i) => {
                                assert(after[i as int].0@ == k);
                            },
                            None => {
                                assert(after[after.len() - 1].0@ == k);
                            },
                        }
                    }
                }
            }
            assert forall|k: Seq<char>| texts_of(after).contains_key(k) implies texts_of(after)[k]
                == wanted[k] by {
                let i = choose|i: int| 0 <= i < after.len() && (#[trigger] after[i]).0@ == k;
                if k != key@ {
                    assert(before[i].0@ == k);
                    assert(before[i] == after[i]);
                } else {
                    match place {
                        Some(p) => {
                            if i != p {
                                if i < p {
                                    assert(after[i].0@ != after[p as int].0@);
                                } else {
                                    assert(after[p as int].0@ != after[i].0@);
                                }
                            }
                        },
                        None => {
                            if i != after.len() - 1 {
                                assert(after[i].0@ != after[after.len() - 1].0@);
                            }
                        },
                    }
                }
            }
            assert(texts_of(after) =~= wanted);
        }
        core::mem::swap(&mut self.entries, &mut entries);
    }
}

/// The key under which the root pointer is kept.
pub open spec fn root_key() -> Seq<char> {
    "root"@
}

/// The node that a store holds under a digest: the one whose canonical text
/// stands under the digest's text form.
pub open spec fn node_at(texts: Map<Seq<char>, Seq<char>>, d: D) -> Option<NodeView> {
    if texts.contains_key(digest_text(d@)) {
        decode(texts[digest_text(d@)])
    } else {
        None
    }
}

/// A store after a node was put into it: the node's canonical text stands
/// under the text form of its digest.
pub open spec fn with_node(texts: Map<Seq<char>, Seq<char>>, n: NodeView) -> Map<
    Seq<char>,
    Seq<char>,
> {
    texts.insert(digest_text(digest_of(n)@), node_text(n))
}

/// The digest that a store names as its root: the empty digest where it
/// names none.
pub open spec fn root_of(texts: Map<Seq<char>, Seq<char>>) -> Result<Seq<u8>, HexError> {
    if texts.contains_key(root_key()) {
        digest_text_decoding(texts[root_key()])
    } else {
        Ok(empty_digest())
    }
}

/// The text under a key, empty where the store has none.
pub fn get_value(store: &KeyValue, key: &str) -> (text: String)
    ensures
        text@ == if store@.contains_key(key@) {
            store@[key@]
        } else {
            Seq::empty()
        },
{
    match store.get(key) {
        Some(text) => text.clone(),
        None => String::new(),
    }
}

/// Puts a text under a key.
pub fn set_value(store: &mut KeyValue, key: &str, value: &str)
    ensures
        final(store)@ == old(store)@.insert(key@, value@),
{
    store.set(key, value.to_owned());
}

/// The node stored under a digest. There is none where the store has nothing
/// under the digest, or a text that is not the canonical text of a node.
pub fn get_item(store: &KeyValue, digest: &D) -> (node: Option<Node>)
    ensures
        match node {
            Some(n) => node_at(store@, *digest) == Some(n@),
            None => node_at(store@, *digest) is None,
        },
{
    let key = digest.to_hex();
    match store.get(key.as_str()) {
        Some(text) => Node::deserialize(text.as_str()),
        None => None,
    }
}

/// The node stored under a digest, read once.
pub fn get_item_untracked(store: &KeyValue, digest: &D) -> (node: Option<Node>)
    ensures
        match node {
            Some(n) => node_at(store@, *digest) == Some(n@),
            None => node_at(store@, *digest) is None,
        },
{
    get_item(store, digest)
}

/// Stores a node under its digest and returns the digest.
pub fn set_item(store: &mut KeyValue, node: &Node) -> (d: D)
    ensures
        d == digest_of(node@),
        final(store)@ == with_node(old(store)@, node@),
{
    let d = node.digest();
    let key = d.to_hex();
    store.set(key.as_str(), node.serialize());
    d
}

/// Names a digest as the root of the document.
pub fn set_root(store: &mut KeyValue, d: &D)
    ensures
        final(store)@ == old(store)@.insert(root_key(), digest_text(d@)),
{
    store.set("root", d.to_hex());
}

/// The digest that the store names as the root of the document: the empty
/// digest where it names none.
pub fn get_root(store: &KeyValue) -> (d: D)
    requires
        root_of(store@) is Ok,
    ensures
        root_of(store@) == Ok::<Seq<u8>, HexError>(d@),
{
    match store.get("root") {
        Some(text) => D::from_hex(text.as_str()),
        None => D::default(),
    }
}

/// A node that was put into a store is found there under its digest.
pub proof fn law_store_round_trip(texts: Map<Seq<char>, Seq<char>>, n: NodeView)
    ensures
        node_at(with_node(texts, n), digest_of(n)) == Some(n),
{
    law_decode_round_trip(n);
}

/// Putting a node into a store leaves what stands under every other digest.
pub proof fn law_store_keeps_others(texts: Map<Seq<char>, Seq<char>>, n: NodeView, d: D)
    requires
        d != digest_of(n),
    ensures
        node_at(with_node(texts, n), d) == node_at(texts, d),
{
    if digest_text(d@) == digest_text(digest_of(n)@) {
        law_digest_text_injective(d@, digest_of(n)@);
        lemma_digest_from(d);
        lemma_digest_from(digest_of(n));
    }
}

/// Putting the same node twice is putting it once.
pub proof fn law_store_put_idempotent(texts: Map<Seq<char>, Seq<char>>, n: NodeView)
    ensures
        with_node(with_node(texts, n), n) == with_node(texts, n),
{
    assert(with_node(with_node(texts, n), n) =~= with_node(texts, n));
}

/// A store of values, each under the digest of its content.
pub trait Store<T, D> where T: HasDigest<Digest = D> {
    /// What the store holds under each digest.
    spec fn held(&self) -> Map<D, T>;

    /// The value under a digest, if there is one.
    fn get(&self, digest: &D) -> (found: Option<&T>)
        ensures
            match found {
                Some(value) => self.held().contains_key(*digest) && *value == self.held()[*digest],
                None => !self.held().contains_key(*digest),
            },
    ;

    /// Whether there is a value under a digest.
    fn has(&self, digest: &D) -> (yes: bool)
        ensures
            yes == self.held().contains_key(*digest),
    ;

    /// Puts a value under its digest and returns the digest.
    fn put(&mut self, value: T) -> (d: D)
        ensures
            d == value.digest_spec(),
            final(self).held() == old(self).held().insert(d, value),
    ;
}

/// The map that a sequence of digests with their values stands for.
pub open spec fn held_by<T, D>(entries: Seq<(D, T)>) -> Map<D, T>
    decreases entries.len(),
{
    if entries.len() == 0 {
        Map::empty()
    } else {
        held_by(entries.drop_last()).insert(entries.last().0, entries.last().1)
    }
}

/// Whether no digest occurs twice in a sequence of entries.
pub open spec fn distinct_digests<T, D>(entries: Seq<(D, T)>) -> bool {
    forall|i: int, j: int|
        0 <= i < j < entries.len() ==> (#[trigger] entries[i]).0 != (#[trigger] entries[j]).0
}

proof fn lemma_held_by<T, D>(entries: Seq<(D, T)>)
    requires
        distinct_digests(entries),
    ensures
        forall|i: int|
            0 <= i < entries.len() ==> held_by(entries).contains_key((#[trigger] entries[i]).0)
                && held_by(entries)[entries[i].0] == entries[i].1,
        forall|k: D|
            held_by(entries).contains_key(k) ==> exists|i: int|
                0 <= i < entries.len() && (#[trigger] entries[i]).0 == k,
    decreases entries.len(),
{
    if entries.len() > 0 {
        let front = entries.drop_last();
        let last = entries.last();
        assert forall|i: int, j: int| 0 <= i < j < front.len() implies (#[trigger] front[i]).0 != (
        #[trigger] front[j]).0 by {
            assert(front[i] == entries[i] && front[j] == entries[j]);
        }
        lemma_held_by(front);
        assert forall|i: int| 0 <= i < entries.len() implies held_by(entries).contains_key(
            (#[trigger] entries[i]).0,
        ) && held_by(entries)[entries[i].0] == entries[i].1 by {
            if i < entries.len() - 1 {
                assert(front[i] == entries[i]);
                assert(entries[i].0 != entries[entries.len() - 1].0);
            }
        }
        assert forall|k: D| held_by(entries).contains_key(k) implies exists|i: int|
            0 <= i < entries.len() && (#[trigger] entries[i]).0 == k by {
            if k == last.0 {
                assert(entries[entries.len() - 1].0 == k);
            } else {
                assert(held_by(front).contains_key(k));
                let i = choose|i: int| 0 <= i < front.len() && (#[trigger] front[i]).0 == k;
                assert(front[i] == entries[i]);
                assert(entries[i].0 == k);
            }
        }
    }
}

/// A store of values under their digests, held in memory.
#[verifier::reject_recursive_types(D)]
pub struct LocalStorage<T, D> where T: HasDigest<Digest = D>, D: PartialEq {
    storage: Vec<(D, T)>,
}

impl<T, D> LocalStorage<T, D> where T: HasDigest<Digest = D>, D: PartialEq {
    #[verifier::type_invariant]
    spec fn well_formed(self) -> bool {
        distinct_digests(self.storage@) && vstd::laws_eq::obeys_concrete_eq::<D>()
    }

    /// A store without values. Its digests are told apart by `==`, which
    /// has to say of two digests whether they are the same.
    pub fn new() -> (store: Self)
        requires
            vstd::laws_eq::obeys_concrete_eq::<D>(),
        ensures
            store.held() == Map::<D, T>::empty(),
    {
        LocalStorage { storage: Vec::new() }
    }

    /// The place of a digest among the entries.
    fn find(&self, digest: &D) -> (place: Option<usize>)
        ensures
            match place {
                Some(i) => i < self.storage@.len() && self.storage@[i as int].0 == *digest,
                None => forall|j: int| 0 <= j < self.storage@.len() ==> (#[trigger] self.storage@[j]).0
                    != *digest,
            },
    {
        proof {
            use_type_invariant(self);
            reveal(vstd::laws_eq::obeys_concrete_eq);
        }
        let mut i: usize = 0;
        while i < self.storage.len()
            invariant
                i <= self.storage@.len(),
                vstd::laws_eq::obeys_concrete_eq::<D>(),
                forall|j: int| 0 <= j < i ==> (#[trigger] self.storage@[j]).0 != *digest,
            decreases self.storage@.len() - i,
        {
            proof {
                reveal(vstd::laws_eq::obeys_concrete_eq);
            }
            if self.storage[i].0 == *digest {
                return Some(i);
            }
            i += 1;
        }
        None
    }
}

impl<T, D> Store<T, D> for LocalStorage<T, D> where T: HasDigest<Digest = D>, D: PartialEq {
    closed spec fn held(&self) -> Map<D, T> {
        held_by(self.storage@)
    }

    fn get(&self, digest: &D) -> (found: Option<&T>) {
        proof {
            use_type_invariant(self);
            lemma_held_by(self.storage@);
        }
        match self.find(digest) {
            Some(i) => Some(&self.storage[i].1),
            None => None,
        }
    }

    fn has(&self, digest: &D) -> (yes: bool) {
        proof {
            use_type_invariant(self);
            lemma_held_by(self.storage@);
        }
        self.find(digest).is_some()
    }

    fn put(&mut self, value: T) -> (d: D) {
        proof {
            use_type_invariant(&*self);
            lemma_held_by(self.storage@);
        }
        let key = value.digest();
        let d = value.digest();
        let place = self.find(&key);
        let ghost before = self.storage@;
        let mut storage: Vec<(D, T)> = Vec::new();
        core::mem::swap(&mut self.storage, &mut storage);
        match place {
            Some(i) => {
                storage.set(i, (key, value));
            },
            None => {
                storage.push((key, value));
            },
        }
        proof {
            let after = storage@;
            assert forall|i: int, j: int| 0 <= i < j < after.len() implies (#[trigger] after[i]).0 != (
            #[trigger] after[j]).0 by {
                if i < before.len() && j < before.len() {
                    assert(before[i].0 != before[j].0);
                }
            }
            lemma_held_by(after);
            let wanted = held_by(before).insert(d, value);
            assert forall|k: D| #[trigger] held_by(after).contains_key(k) == wanted.contains_key(k) by {
                if held_by(after).contains_key(k) {
                    let i = choose|i: int| 0 <= i < after.len() && (#[trigger] after[i]).0 == k;
                    if k != d {
                        assert(before[i].0 == k);
                    }
                }
                if wanted.contains_key(k) {
                    if k != d {
                        let i = choose|i: int| 0 <= i < before.len() && (#[trigger] before[i]).0 == k;
                        assert(after[i].0 == k);
                    } else {
                        match place {
                            Some(i) => {
                                assert(after[i as int].0 == k);
                            },
                            None => {
                                assert(after[after.len() - 1].0 == k);
                            },
                        }
                    }
                }
            }
            assert forall|k: D| #[trigger] held_by(after).contains_key(k) implies held_by(after)[k]
                == wanted[k] by {
                let i = choose|i: int| 0 <= i < after.len() && (#[trigger] after[i]).0 == k;
                if k != d {
                    assert(before[i].0 == k);
                    assert(before[i] == after[i]);
                } else {
                    match place {
                        Some(p) => {
                            if i != p {
                                if i < p {
                                    assert(after[i].0 != after[p as int].0);
                                } else {
                                    assert(after[p as int].0 != after[i].0);
                                }
                            }
                        },
                        None => {
                            if i != after.len() - 1 {
                                assert(after[i].0 != after[after.len() - 1].0);
                            }
                        },
                    }
                }
            }
            assert(held_by(after) =~= wanted);
        }
        core::mem::swap(&mut self.storage, &mut storage);
        d
    }
}

/// A store of nodes under their digests, held in memory.
pub fn node_storage() -> (store: LocalStorage<Node, D>)
    ensures
        store.held() == Map::<D, Node>::empty(),
{
    proof {
        lemma_digest_equality();
    }
    LocalStorage::new()
}

/// Two digests are the same exactly when `==` says so.
pub proof fn lemma_digest_equality()
    ensures
        vstd::laws_eq::obeys_concrete_eq::<D>(),
{
    reveal(vstd::laws_eq::obeys_concrete_eq);
    assert forall|x: D, y: D| x.eq_spec(&y) <==> x == y by {
        lemma_digest_from(x);
        lemma_digest_from(y);
    }
}

} // verus!
