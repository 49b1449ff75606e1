//! The document type the transformer works on, and its mathematical model.

use vstd::prelude::*;

verus! {

/// `serde_json::Number`: a number of a JSON document. The library hands
/// numbers on and never looks into them.
#[verifier::external_type_specification]
#[verifier::external_body]
pub struct ExNumber(serde_json::Number);

/// `Clone::clone` of `serde_json::Number`: the copy is the same number.
pub assume_specification[ <serde_json::Number as Clone>::clone ](n: &serde_json::Number) -> (r:
    serde_json::Number)
    ensures
        r == *n,
;

/// `serde_json::Value`: a JSON document as `serde_json` reads it. The
/// library takes it apart at once, into a [`Document`].
#[verifier::external_type_specification]
#[verifier::external_body]
pub struct ExJsonValue(serde_json::Value);

/// The fields of an object, in the order in which their keys first appeared.
pub type Fields = Seq<(Seq<char>, Json)>;

/// Mathematical model of a document.
pub enum Json {
    Null,
    Bool(bool),
    Number(serde_json::Number),
    Text(Seq<char>),
    Array(Seq<Json>),
    Object(Fields),
}

/// A document: the executable counterpart of [`Json`].
#[derive(Debug, PartialEq)]
pub enum Document {
    Null,
    Bool(bool),
    Number(serde_json::Number),
    String(String),
    Array(Vec<Document>),
    Object(Object),
}

/// An object: a map from keys to documents that remembers the order in which
/// its keys were first inserted. No key occurs twice.
#[derive(Debug, PartialEq)]
pub struct Object {
    entries: Vec<(String, Document)>,
}

/// The model of a list of documents.
pub open spec fn items_view(items: Seq<Document>) -> Seq<Json>
    decreases items,
{
    Seq::new(
        items.len(),
        |i: int|
            if 0 <= i < items.len() {
                items[i].view()
            } else {
                Json::Null
            },
    )
}

/// The model of a list of fields.
pub open spec fn fields_view(entries: Seq<(String, Document)>) -> Fields
    decreases entries,
{
    Seq::new(
        entries.len(),
        |i: int|
            if 0 <= i < entries.len() {
                (entries[i].0@, entries[i].1.view())
            } else {
                (Seq::empty(), Json::Null)
            },
    )
}

impl View for Document {
    type V = Json;

    open spec fn view(&self) -> Json
        decreases self,
    {
        match self {
            Document::Null => Json::Null,
            Document::Bool(b) => Json::Bool(*b),
            Document::Number(n) => Json::Number(*n),
            Document::String(s) => Json::Text(s@),
            Document::Array(items) => Json::Array(items_view(items@)),
            Document::Object(object) => Json::Object(object.view()),
        }
    }
}

impl View for Object {
    type V = Fields;

    closed spec fn view(&self) -> Fields
        decreases self,
    {
        fields_view(self.entries@)
    }
}

/// The index of the first field at or after `from` whose key is `key`, or the
/// number of fields if there is none.
pub open spec fn position_from(fields: Fields, key: Seq<char>, from: int) -> int
    decreases fields.len() - from,
{
    if from < 0 || from >= fields.len() {
        fields.len() as int
    } else if fields[from].0 == key {
        from
    } else {
        position_from(fields, key, from + 1)
    }
}

/// The index of the first field whose key is `key`, or the number of fields
/// if no field has that key.
pub open spec fn position(fields: Fields, key: Seq<char>) -> int {
    position_from(fields, key, 0)
}

/// Whether some field has the key `key`.
pub open spec fn has_key(fields: Fields, key: Seq<char>) -> bool {
    position(fields, key) < fields.len()
}

/// The value stored under `key`, if any.
pub open spec fn lookup(fields: Fields, key: Seq<char>) -> Option<Json> {
    if has_key(fields, key) {
        Some(fields[position(fields, key)].1)
    } else {
        None
    }
}

/// The fields after `value` has been stored under `key`: an existing field
/// keeps its place and gets the new value, a new key goes to the end.
pub open spec fn store(fields: Fields, key: Seq<char>, value: Json) -> Fields {
    if has_key(fields, key) {
        fields.update(position(fields, key), (key, value))
    } else {
        fields.push((key, value))
    }
}

/// No key occurs twice among the fields.
pub open spec fn distinct_keys(fields: Fields) -> bool {
    forall|i: int, j: int|
        0 <= i < j < fields.len() ==> (#[trigger] fields[i]).0 != (#[trigger] fields[j]).0
}

/// `position_from` returns the first match at or after `from`.
proof fn lemma_position_from(fields: Fields, key: Seq<char>, from: int)
    requires
        0 <= from <= fields.len(),
    ensures
        from <= position_from(fields, key, from) <= fields.len(),
        forall|j: int| from <= j < position_from(fields, key, from) ==> fields[j].0 != key,
        position_from(fields, key, from) < fields.len() ==> fields[position_from(
            fields,
            key,
            from,
        )].0 == key,
    decreases fields.len() - from,
{
    if from < fields.len() && fields[from].0 != key {
        lemma_position_from(fields, key, from + 1);
    }
}

/// `position` is the one index that has the key and has no match before it.
pub(crate) proof fn lemma_position(fields: Fields, key: Seq<char>)
    ensures
        0 <= position(fields, key) <= fields.len(),
        forall|j: int| 0 <= j < position(fields, key) ==> fields[j].0 != key,
        has_key(fields, key) ==> fields[position(fields, key)].0 == key,
{
    lemma_position_from(fields, key, 0);
}

/// An index that has the key, with no match before it, is `position`.
pub(crate) proof fn lemma_position_is(fields: Fields, key: Seq<char>, at: int)
    requires
        0 <= at <= fields.len(),
        forall|j: int| 0 <= j < at ==> fields[j].0 != key,
        at < fields.len() ==> fields[at].0 == key,
    ensures
        position(fields, key) == at,
{
    lemma_position(fields, key);
}

/// Storing a value keeps the keys distinct.
pub proof fn lemma_store_distinct(fields: Fields, key: Seq<char>, value: Json)
    requires
        distinct_keys(fields),
    ensures
        distinct_keys(store(fields, key, value)),
{
    lemma_position(fields, key);
}

/// What is stored under a key is what is found there; every other key is
/// found as before.
pub proof fn lemma_lookup_store(fields: Fields, key: Seq<char>, value: Json, other: Seq<char>)
    ensures
        lookup(store(fields, key, value), other) == (if other == key {
            Some(value)
        } else {
            lookup(fields, other)
        }),
{
    let after = store(fields, key, value);
    let q = position(fields, other);
    lemma_position(fields, key);
    lemma_position(fields, other);
    if has_key(fields, key) {
        lemma_position_is(after, other, q);
    } else {
        if other == key {
            lemma_position_is(after, other, fields.len() as int);
        } else if q < fields.len() {
            lemma_position_is(after, other, q);
        } else {
            lemma_position_is(after, other, after.len() as int);
        }
    }
}

impl Object {
    /// What holds of every object: no key occurs twice.
    #[verifier::type_invariant]
    pub open spec fn keys_are_distinct(self) -> bool {
        distinct_keys(self@)
    }

    /// An object without fields.
    pub fn new() -> (r: Self)
        ensures
            r@ == Seq::<(Seq<char>, Json)>::empty(),
    {
        let r = Object { entries: Vec::new() };
        r
    }

    /// The number of fields.
    pub fn len(&self) -> (n: usize)
        ensures
            n == self@.len(),
    {
        self.entries.len()
    }

    /// The key and the value of the field at position `i`.
    pub fn entry(&self, i: usize) -> (r: (&String, &Document))
        requires
            i < self@.len(),
        ensures
            self@[i as int] == (r.0@, r.1@),
    {
        (&self.entries[i].0, &self.entries[i].1)
    }

    /// Finds the field with the given key.
    pub fn find(&self, key: &String) -> (r: Option<usize>)
        ensures
            match r {
                Some(i) => has_key(self@, key@) && i == position(self@, key@),
                None => !has_key(self@, key@),
            },
    {
        let ghost fields = self@;
        let mut i: usize = 0;
        while i < self.entries.len()
            invariant
                0 <= i <= self.entries.len(),
                fields == fields_view(self.entries@),
                forall|j: int| 0 <= j < i ==> fields[j].0 != key@,
            decreases self.entries.len() - i,
        {
            if self.entries[i].0 == *key {
                proof {
                    lemma_position_is(fields, key@, i as int);
                }
                return Some(i);
            }
            i += 1;
        }
        proof {
            lemma_position_is(fields, key@, i as int);
        }
        None
    }

    /// Reads the value stored under `key`.
    pub fn get(&self, key: &String) -> (r: Option<&Document>)
        ensures
            match r {
                Some(v) => lookup(self@, key@) == Some(v@),
                None => lookup(self@, key@) is None,
            },
    {
        match self.find(key) {
            Some(i) => Some(&self.entries[i].1),
            None => None,
        }
    }

    /// Puts `value` in the field at position `i` and returns what was there.
    pub fn replace_at(&mut self, i: usize, value: Document) -> (was: Document)
        requires
            i < old(self)@.len(),
        ensures
            final(self)@ == old(self)@.update(i as int, (old(self)@[i as int].0, value@)),
            was@ == old(self)@[i as int].1,
    {
        proof {
            use_type_invariant(&*self);
        }
        let mut entries: Vec<(String, Document)> = Vec::new();
        std::mem::swap(&mut self.entries, &mut entries);
        let ghost before = fields_view(entries@);
        let mut held = value;
        std::mem::swap(&mut entries[i].1, &mut held);
        let ghost after = fields_view(entries@);
        assert(after =~= before.update(i as int, (before[i as int].0, value@)));
        self.entries = entries;
        held
    }

    /// Stores `value` under `key`, overwriting what was there.
    pub fn insert(&mut self, key: String, value: Document)
        ensures
            final(self)@ == store(old(self)@, key@, value@),
    {
        proof {
            use_type_invariant(&*self);
            lemma_store_distinct(self@, key@, value@);
        }
        let found = self.find(&key);
        let mut entries: Vec<(String, Document)> = Vec::new();
        std::mem::swap(&mut self.entries, &mut entries);
        match found {
            Some(i) => {
                entries[i] = (key, value);
            },
            None => {
                entries.push((key, value));
            },
        }
        assert(fields_view(entries@) =~= store(old(self)@, key@, value@));
        self.entries = entries;
    }
}

impl Clone for Document {
    /// A copy that holds what the document holds.
    fn clone(&self) -> (r: Self)
        ensures
            r@ == self@,
        decreases self@,
    {
        match self {
            Document::Null => Document::Null,
            Document::Bool(b) => Document::Bool(*b),
            Document::Number(n) => Document::Number(n.clone()),
            Document::String(s) => Document::String(s.clone()),
            Document::Array(items) => {
                let mut copy: Vec<Document> = Vec::new();
                let mut i: usize = 0;
                while i < items.len()
                    invariant
                        0 <= i <= items.len(),
                        copy.len() == i,
                        self@ is Array && self@->Array_0 == items_view(items@),
                        forall|j: int| 0 <= j < i ==> copy[j]@ == items[j]@,
                    decreases items.len() - i,
                {
                    assert(items_view(items@)[i as int] == items[i as int]@);
                    copy.push(items[i].clone());
                    i += 1;
                }
                assert(items_view(copy@) =~= items_view(items@));
                Document::Array(copy)
            },
            Document::Object(object) => {
                assert(self@ is Object && self@->Object_0 == object@);
                Document::Object(object.clone())
            },
        }
    }
}

impl Clone for Object {
    /// A copy with the same fields in the same order.
    fn clone(&self) -> (r: Self)
        ensures
            r@ == self@,
        decreases self@,
    {
        proof {
            use_type_invariant(self);
        }
        let mut copy: Vec<(String, Document)> = Vec::new();
        let mut i: usize = 0;
        while i < self.entries.len()
            invariant
                0 <= i <= self.entries.len(),
                copy.len() == i,
                forall|j: int|
                    0 <= j < i ==> copy[j].0@ == self.entries[j].0@ && copy[j].1@
                        == self.entries[j].1@,
            decreases self.entries.len() - i,
        {
            assert(self@[i as int].1 == self.entries[i as int].1@);
            copy.push((self.entries[i].0.clone(), self.entries[i].1.clone()));
            i += 1;
        }
        assert(fields_view(copy@) =~= fields_view(self.entries@));
        Object { entries: copy }
    }
}

/// What `serde_json::from_str` makes of a text when it is asked for a
/// `serde_json::Value`: the document that the text denotes, or the error
/// that says why it denotes none. The fields of an object stand in the
/// order in which their keys first stand in the text; of a key that the
/// text holds twice, the last value stays.
pub uninterp spec fn json_document(text: Seq<char>) -> Result<Json, serde_json::Error>;

/// Calls `serde_json::from_str` for a `serde_json::Value`. What comes back,
/// a document or an error, depends on the text alone.
#[verifier::external_body]
pub(crate) fn read_document(text: &str) -> (r: Result<Document, serde_json::Error>)
    ensures
        match r {
            Ok(document) => json_document(text@) == Ok::<Json, serde_json::Error>(document@),
            Err(e) => json_document(text@) == Err::<Json, serde_json::Error>(e),
        },
{
    match serde_json::from_str::<serde_json::Value>(text) {
        Ok(value) => Ok(lift(value)),
        Err(e) => Err(e),
    }
}

/// Takes a `serde_json::Value` apart, variant by variant, into a document.
/// The fields of an object come in the order in which `serde_json::Map`
/// hands them out: with its feature `preserve_order`, the order in which
/// the keys first stood in the text. The map holds no key twice.
#[verifier::external_body]
fn lift(value: serde_json::Value) -> Document {
    match value {
        serde_json::Value::Null => Document::Null,
        serde_json::Value::Bool(b) => Document::Bool(b),
        serde_json::Value::Number(n) => Document::Number(n),
        serde_json::Value::String(s) => Document::String(s),
        serde_json::Value::Array(items) => Document::Array(items.into_iter().map(lift).collect()),
        serde_json::Value::Object(map) => Document::Object(
            Object { entries: map.into_iter().map(|(k, v)| (k, lift(v))).collect() },
        ),
    }
}

} // verus!
