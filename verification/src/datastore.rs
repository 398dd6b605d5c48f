//! The in-memory store: strings and hashes under string keys.

use vstd::hash_map::StringHashMap;
use vstd::pervasive::unreached;
use vstd::prelude::*;
use vstd::string::*;
use vstd::utf8::encode_utf8;
use crate::text::bytes_of_text;
use crate::value::{views, Value, ValueView};

verus! {

/// The bulk string that carries `text`.
pub open spec fn bulk_of(text: Seq<char>) -> ValueView {
    ValueView::Bulk(encode_utf8(text))
}

/// The reply to a write that succeeded.
pub open spec fn ok_reply() -> ValueView {
    ValueView::Str("OK"@)
}

/// The content of one hash: its fields in the order in which they were
/// first written, and the value of each.
pub struct HashState {
    /// The names of the fields, in the order of their first write.
    pub order: Seq<Seq<char>>,
    /// The value of each field.
    pub fields: Map<Seq<char>, Seq<char>>,
}

impl HashState {
    /// The hash without fields.
    pub open spec fn empty() -> HashState {
        HashState { order: Seq::empty(), fields: Map::empty() }
    }

    /// Whether `order` lists each field of the hash exactly once.
    pub open spec fn wf(self) -> bool {
        &&& self.order.no_duplicates()
        &&& forall|f: Seq<char>| self.order.contains(f) <==> self.fields.contains_key(f)
    }

    /// The hash after `value` is written to `field`: a new field goes to the
    /// end of the order, a field that exists keeps its place.
    pub open spec fn put(self, field: Seq<char>, value: Seq<char>) -> HashState {
        HashState {
            order: if self.fields.contains_key(field) {
                self.order
            } else {
                self.order.push(field)
            },
            fields: self.fields.insert(field, value),
        }
    }

    /// The reply for one field: its value, or null where the hash lacks it.
    pub open spec fn get(self, field: Seq<char>) -> ValueView {
        if self.fields.contains_key(field) {
            bulk_of(self.fields[field])
        } else {
            ValueView::Null
        }
    }

    /// The fields and values of the hash in turn: each field, in order,
    /// followed by its value.
    pub open spec fn flatten(self) -> Seq<ValueView> {
        Seq::new(
            2 * self.order.len(),
            |i: int|
                if i % 2 == 0 {
                    bulk_of(self.order[i / 2])
                } else {
                    bulk_of(self.fields[self.order[i / 2]])
                },
        )
    }

    /// The flattened hash holds each field exactly once, each followed by
    /// its value, and nothing else.
    pub proof fn lemma_flatten_pairs(self)
        requires
            self.wf(),
        ensures
            self.flatten().len() == 2 * self.order.len(),
            forall|i: int|
                0 <= i < self.order.len() ==> self.fields.contains_key(#[trigger] self.order[i])
                    && self.flatten()[2 * i] == bulk_of(self.order[i]) && self.flatten()[2 * i + 1]
                    == bulk_of(self.fields[self.order[i]]),
            forall|i: int, j: int|
                0 <= i < j < self.order.len() ==> self.order[i] != self.order[j],
            forall|f: Seq<char>| #[trigger]
                self.fields.contains_key(f) ==> exists|i: int|
                    0 <= i < self.order.len() && self.order[i] == f,
    {
        assert forall|i: int| 0 <= i < self.order.len() implies self.fields.contains_key(
            #[trigger] self.order[i],
        ) by {
            assert(self.order.contains(self.order[i]));
        }
        assert forall|f: Seq<char>| #[trigger] self.fields.contains_key(f) implies exists|i: int|
            0 <= i < self.order.len() && self.order[i] == f by {
            assert(self.order.contains(f));
        }
    }

    /// Writing a field keeps the order faithful to the fields.
    pub proof fn lemma_put_wf(self, field: Seq<char>, value: Seq<char>)
        requires
            self.wf(),
        ensures
            self.put(field, value).wf(),
    {
        let after = self.put(field, value);
        if self.fields.contains_key(field) {
            assert(self.order.contains(field));
        } else {
            assert(!self.order.contains(field));
            assert forall|i: int, j: int|
                0 <= i < after.order.len() && 0 <= j < after.order.len() && i != j implies after.order[i]
                != after.order[j] by {
                if i < self.order.len() {
                    assert(self.order.contains(self.order[i]));
                }
                if j < self.order.len() {
                    assert(self.order.contains(self.order[j]));
                }
            }
        }
        assert forall|f: Seq<char>| after.order.contains(f) <==> after.fields.contains_key(f) by {
            if after.order.contains(f) {
                let i = choose|i: int| 0 <= i < after.order.len() && after.order[i] == f;
                if i < self.order.len() {
                    assert(self.order.contains(f));
                }
            }
            if after.fields.contains_key(f) {
                if f == field {
                    if self.fields.contains_key(field) {
                        assert(self.order.contains(f));
                    } else {
                        assert(after.order[self.order.len() as int] == f);
                    }
                } else {
                    assert(self.order.contains(f));
                    let i = choose|i: int| 0 <= i < self.order.len() && self.order[i] == f;
                    assert(after.order[i] == f);
                }
            }
        }
    }
}

/// The content of the store: two independent mappings.
pub struct StoreState {
    /// The string stored under each key.
    pub strings: Map<Seq<char>, Seq<char>>,
    /// The hash stored under each key.
    pub hashes: Map<Seq<char>, HashState>,
}

impl StoreState {
    /// The store that holds nothing.
    pub open spec fn empty() -> StoreState {
        StoreState { strings: Map::empty(), hashes: Map::empty() }
    }

    /// Whether every hash of the store is well formed.
    pub open spec fn wf(self) -> bool {
        forall|k: Seq<char>| self.hashes.contains_key(k) ==> (#[trigger] self.hashes[k]).wf()
    }

    /// The store after `value` is written under `key`.
    pub open spec fn set(self, key: Seq<char>, value: Seq<char>) -> StoreState {
        StoreState { strings: self.strings.insert(key, value), hashes: self.hashes }
    }

    /// The reply for the string under `key`: a bulk string, or null where
    /// the key is absent.
    pub open spec fn get(self, key: Seq<char>) -> ValueView {
        if self.strings.contains_key(key) {
            bulk_of(self.strings[key])
        } else {
            ValueView::Null
        }
    }

    /// The hash under `key`, empty where the key has none.
    pub open spec fn hash(self, key: Seq<char>) -> HashState {
        if self.hashes.contains_key(key) {
            self.hashes[key]
        } else {
            HashState::empty()
        }
    }

    /// The store after `value` is written to `field` of the hash under
    /// `key`, which is created where it is absent.
    pub open spec fn hset(self, key: Seq<char>, field: Seq<char>, value: Seq<char>) -> StoreState {
        StoreState {
            strings: self.strings,
            hashes: self.hashes.insert(key, self.hash(key).put(field, value)),
        }
    }

    /// The reply for `field` of the hash under `key`: a bulk string, or null
    /// where the key has no hash or the hash lacks the field.
    pub open spec fn hget(self, key: Seq<char>, field: Seq<char>) -> ValueView {
        if self.hashes.contains_key(key) {
            self.hashes[key].get(field)
        } else {
            ValueView::Null
        }
    }

    /// The reply for the whole hash under `key`: an array of its fields and
    /// values in turn, or null where the key has no hash.
    pub open spec fn hgetall(self, key: Seq<char>) -> ValueView {
        if self.hashes.contains_key(key) {
            ValueView::Array(self.hashes[key].flatten())
        } else {
            ValueView::Null
        }
    }
}

/// One hash: the names of its fields in the order of their first write,
/// and the value of each.
struct Hash {
    order: Vec<String>,
    fields: StringHashMap<String>,
}

impl View for Hash {
    type V = HashState;

    closed spec fn view(&self) -> HashState {
        HashState {
            order: self.order@.map_values(|name: String| name@),
            fields: self.fields@.map_values(|value: String| value@),
        }
    }
}

impl Hash {
    /// A hash without fields.
    fn new() -> (hash: Hash)
        ensures
            hash@ == HashState::empty(),
    {
        let hash = Hash { order: Vec::new(), fields: StringHashMap::new() };
        assert(hash@.order =~= HashState::empty().order);
        assert(hash@.fields =~= HashState::empty().fields);
        hash
    }

    /// Writes `value` to `field`.
    fn put(&mut self, field: String, value: String)
        ensures
            final(self)@ == old(self)@.put(field@, value@),
    {
        if !self.fields.contains_key(field.as_str()) {
            self.order.push(field.clone());
        }
        self.fields.insert(field, value);
        assert(self@.order =~= old(self)@.put(field@, value@).order);
        assert(self@.fields =~= old(self)@.put(field@, value@).fields);
    }

    /// The reply for `field`.
    fn get(&self, field: &str) -> (reply: Value)
        ensures
            reply@ == self@.get(field@),
    {
        match self.fields.get(field) {
            Some(value) => Value::Bulk(bytes_of_text(value.as_str())),
            None => Value::Null,
        }
    }

    /// The fields and values in turn, in the order of the fields.
    fn flatten(&self) -> (items: Vec<Value>)
        requires
            self@.wf(),
        ensures
            views(items@) == self@.flatten(),
    {
        let mut items: Vec<Value> = Vec::new();
        let mut i: usize = 0;
        while i < self.order.len()
            invariant
                self@.wf(),
                i <= self.order@.len(),
                items@.len() == 2 * i,
                forall|k: int| 0 <= k < 2 * i ==> (#[trigger] items@[k])@ == self@.flatten()[k],
            decreases self.order@.len() - i,
        {
            let name = &self.order[i];
            assert(self@.order[i as int] == name@);
            assert(self@.order.contains(name@));
            match self.fields.get(name.as_str()) {
                Some(value) => {
                    items.push(Value::Bulk(bytes_of_text(name.as_str())));
                    items.push(Value::Bulk(bytes_of_text(value.as_str())));
                },
                None => unreached(),
            }
            i += 1;
        }
        assert(views(items@) =~= self@.flatten());
        items
    }
}

/// The store: strings and hashes under string keys, in memory.
///
/// A write takes the store by exclusive reference and a read by shared
/// reference, so every operation runs as one step with respect to every
/// other. Callers that share a store between threads keep it behind a lock
/// and hold the lock for one operation at a time.
pub struct Datastore {
    /// The string under each key.
    db: StringHashMap<String>,
    /// For each key with a hash, the place of the hash in `hash_db`.
    hash_slots: StringHashMap<usize>,
    /// The hashes, each at the place where it was created.
    hash_db: Vec<Hash>,
}

impl View for Datastore {
    type V = StoreState;

    closed spec fn view(&self) -> StoreState {
        StoreState {
            strings: self.db@.map_values(|value: String| value@),
            hashes: Map::new(
                |key: Seq<char>| self.hash_slots@.contains_key(key),
                |key: Seq<char>| self.hash_db@[self.hash_slots@[key] as int]@,
            ),
        }
    }
}

impl Datastore {
    /// Whether the store is in order: every key with a hash names a place
    /// of its own in `hash_db`, and every hash is well formed.
    pub closed spec fn wf(&self) -> bool {
        &&& forall|k: Seq<char>| #[trigger]
            self.hash_slots@.contains_key(k) ==> self.hash_slots@[k] < self.hash_db@.len()
        &&& forall|j: Seq<char>, k: Seq<char>|
            self.hash_slots@.contains_key(j) && self.hash_slots@.contains_key(k) && j != k
                ==> self.hash_slots@[j] != self.hash_slots@[k]
        &&& forall|i: int| 0 <= i < self.hash_db@.len() ==> (#[trigger] self.hash_db@[i])@.wf()
    }

    /// A store in order has a well-formed content.
    pub proof fn lemma_view_wf(&self)
        requires
            self.wf(),
        ensures
            self@.wf(),
    {
    }

    /// An empty store.
    pub fn new() -> (store: Self)
        ensures
            store.wf(),
            store@ == StoreState::empty(),
    {
        let store = Datastore {
            db: StringHashMap::new(),
            hash_slots: StringHashMap::new(),
            hash_db: Vec::new(),
        };
        assert(store@.strings =~= StoreState::empty().strings);
        assert(store@.hashes =~= StoreState::empty().hashes);
        store
    }

    /// Writes `value` under `key`, over whatever string was there.
    pub fn set(&mut self, key: String, value: String) -> (reply: Value)
        requires
            old(self).wf(),
        ensures
            final(self).wf(),
            final(self)@ == old(self)@.set(key@, value@),
            reply@ == ok_reply(),
    {
        self.db.insert(key, value);
        assert(self@.strings =~= old(self)@.set(key@, value@).strings);
        Value::Str(String::from_str("OK"))
    }

    /// Reads the string under `key`.
    pub fn get(&self, key: &str) -> (reply: Value)
        requires
            self.wf(),
        ensures
            reply@ == self@.get(key@),
    {
        match self.db.get(key) {
            Some(value) => Value::Bulk(bytes_of_text(value.as_str())),
            None => Value::Null,
        }
    }

    /// Writes `value` to `field` of the hash under `key`; the hash is
    /// created where the key has none.
    pub fn hset(&mut self, key: String, field: String, value: String) -> (reply: Value)
        requires
            old(self).wf(),
        ensures
            final(self).wf(),
            final(self)@ == old(self)@.hset(key@, field@, value@),
            reply@ == ok_reply(),
    {
        let slot = match self.hash_slots.get(key.as_str()) {
            Some(slot) => Some(*slot),
            None => None,
        };
        match slot {
            Some(i) => {
                proof {
                    self.hash_db@[i as int]@.lemma_put_wf(field@, value@);
                }
                self.hash_db[i].put(field, value);
            },
            None => {
                let mut hash = Hash::new();
                proof {
                    HashState::empty().lemma_put_wf(field@, value@);
                }
                hash.put(field, value);
                let i = self.hash_db.len();
                self.hash_db.push(hash);
                self.hash_slots.insert(key, i);
            },
        }
        assert(self@.hashes =~= old(self)@.hset(key@, field@, value@).hashes);
        Value::Str(String::from_str("OK"))
    }

    /// Reads `field` of the hash under `key`.
    pub fn hget(&self, key: &str, field: &str) -> (reply: Value)
        requires
            self.wf(),
        ensures
            reply@ == self@.hget(key@, field@),
    {
        match self.hash_slots.get(key) {
            Some(slot) => self.hash_db[*slot].get(field),
            None => Value::Null,
        }
    }

    /// Reads the whole hash under `key`: its fields and values in turn, in
    /// the order in which the fields were first written.
    pub fn hgetall(&self, key: &str) -> (reply: Value)
        requires
            self.wf(),
        ensures
            reply@ == self@.hgetall(key@),
    {
        match self.hash_slots.get(key) {
            Some(slot) => Value::Array(self.hash_db[*slot].flatten()),
            None => Value::Null,
        }
    }
}

} // verus!
