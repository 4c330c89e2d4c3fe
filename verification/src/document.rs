//! The BSON values the traversals read and extend, and what is assumed of them.
//!
//! `bson::Document` is opaque to the verifier. Its contents are named by
//! [`doc_fields`], and each call into the `bson` crate goes through one wrapper
//! below whose contract is believed, not proved.

use bson::oid::ObjectId;
use bson::Bson;
use bson::Document;
use vstd::prelude::*;

verus! {

/// `bson::oid::ObjectId`: a record's identity, carried through unread.
#[verifier::external_type_specification]
#[verifier::external_body]
pub struct ExObjectId(ObjectId);

/// `bson::Bson`: any single BSON value, carried through unread.
#[verifier::external_type_specification]
#[verifier::external_body]
pub struct ExBson(Bson);

/// `bson::Document`: an insertion-ordered map from field name to BSON value.
#[verifier::external_type_specification]
#[verifier::external_body]
pub struct ExDocument(Document);

/// A BSON value as the contracts see it. Embedded documents are modelled all
/// the way down; values that the traversals never look into are carried as
/// they are.
pub enum Value {
    /// An object id: a reference to a record, or the record's own identity.
    Id(ObjectId),
    /// An embedded document.
    Doc(Seq<(Seq<char>, Value)>),
    /// An array every element of which is an embedded document.
    Docs(Seq<Seq<(Seq<char>, Value)>>),
    /// The BSON null.
    Null,
    /// Any other value.
    Other(Bson),
}

/// A document as the contracts see it: its entries in insertion order, each
/// as its name and [`Value`].
pub type Fields = Seq<(Seq<char>, Value)>;

/// The entries of a document: a name for what a `bson::Document` holds.
/// Nothing is proved of it; what is assumed of it is what the wrappers below
/// state of the `bson` methods they call.
pub uninterp spec fn doc_fields(doc: Document) -> Seq<(Seq<char>, Value)>;

/// The entries of each document of a list.
pub open spec fn docs_fields(docs: Seq<Document>) -> Seq<Fields> {
    docs.map_values(|doc: Document| doc_fields(doc))
}

/// Index of the first entry named `key`, or `fields.len()` when there is none.
pub open spec fn key_index(fields: Fields, key: Seq<char>) -> int
    decreases fields.len(),
{
    if fields.len() == 0 {
        0
    } else {
        let before = key_index(fields.drop_last(), key);
        if before < fields.len() - 1 {
            before
        } else if fields.last().0 == key {
            fields.len() - 1
        } else {
            fields.len() as int
        }
    }
}

/// The value stored under `key`, if any.
pub open spec fn field_at(fields: Fields, key: Seq<char>) -> Option<Value> {
    let i = key_index(fields, key);
    if 0 <= i < fields.len() {
        Some(fields[i].1)
    } else {
        None
    }
}

/// The object id stored under `key`; `None` when the key is absent or holds
/// anything else.
pub open spec fn id_at(fields: Fields, key: Seq<char>) -> Option<ObjectId> {
    match field_at(fields, key) {
        Some(Value::Id(id)) => Some(id),
        _ => None,
    }
}

/// `fields` with `value` stored under `key`: in place where the key exists,
/// appended otherwise.
pub open spec fn upsert(fields: Fields, key: Seq<char>, value: Value) -> Fields {
    let i = key_index(fields, key);
    if 0 <= i < fields.len() {
        fields.update(i, (key, value))
    } else {
        fields.push((key, value))
    }
}

/// `ObjectId` is `Copy`: a clone is the same identity.
pub assume_specification[ <ObjectId as Clone>::clone ](id: &ObjectId) -> (copy: ObjectId)
    ensures
        copy == *id,
;

/// `ObjectId` derives its equality: two object ids are equal when they are
/// the same identity.
pub assume_specification[ <ObjectId as PartialEq>::eq ](a: &ObjectId, b: &ObjectId) -> (same: bool)
    ensures
        same == (*a == *b),
;

/// Calls `bson::Document::get_object_id`, which returns the value under `key`
/// when that value is an object id and an error in every other case; the error
/// is dropped.
#[verifier::external_body]
pub(crate) fn object_id_at(doc: &Document, key: &str) -> (found: Option<ObjectId>)
    ensures
        found == id_at(doc_fields(*doc), key@),
{
    doc.get_object_id(key).ok()
}

/// Calls `bson::Document::insert` with a document as the value: the entry
/// named `key` is replaced where it stands, or a new entry is appended.
#[verifier::external_body]
pub(crate) fn put_document(doc: &mut Document, key: &str, value: Document)
    ensures
        doc_fields(*final(doc)) == upsert(doc_fields(*old(doc)), key@, Value::Doc(doc_fields(value))),
{
    doc.insert(key, value);
}

/// Calls `bson::Document::insert` with a vector of documents as the value,
/// which `bson` stores as an array of embedded documents in the same order.
#[verifier::external_body]
pub(crate) fn put_documents(doc: &mut Document, key: &str, values: Vec<Document>)
    ensures
        doc_fields(*final(doc)) == upsert(doc_fields(*old(doc)), key@, Value::Docs(docs_fields(values@))),
{
    doc.insert(key, values);
}

/// `key_index` is the least index of an entry named `key`, or the number of
/// entries where no entry has that name.
pub proof fn lemma_key_index(fields: Fields, key: Seq<char>)
    ensures
        0 <= key_index(fields, key) <= fields.len(),
        key_index(fields, key) < fields.len() ==> fields[key_index(fields, key)].0 == key,
        forall|j: int| 0 <= j < key_index(fields, key) ==> (#[trigger] fields[j]).0 != key,
    decreases fields.len(),
{
    if fields.len() > 0 {
        lemma_key_index(fields.drop_last(), key);
        let before = key_index(fields.drop_last(), key);
        assert forall|j: int| 0 <= j < key_index(fields, key) implies (#[trigger] fields[j]).0
            != key by {
            if j < fields.len() - 1 {
                assert(fields.drop_last()[j] == fields[j]);
            }
        }
        if before < fields.len() - 1 {
            assert(fields.drop_last()[before] == fields[before]);
        }
    }
}

/// The least index of an entry named `key` is `key_index`.
pub proof fn lemma_key_index_is(fields: Fields, key: Seq<char>, at: int)
    requires
        0 <= at <= fields.len(),
        at < fields.len() ==> fields[at].0 == key,
        forall|j: int| 0 <= j < at ==> (#[trigger] fields[j]).0 != key,
    ensures
        key_index(fields, key) == at,
{
    lemma_key_index(fields, key);
    let found = key_index(fields, key);
    if found < at {
        assert(fields[found].0 == key);
    } else if at < found {
        assert(fields[at].0 == key);
    }
}

/// After `upsert`, `key` holds `value` and every other name holds what it
/// held before.
pub proof fn lemma_upsert_field_at(fields: Fields, key: Seq<char>, value: Value, other: Seq<char>)
    ensures
        field_at(upsert(fields, key, value), other) == if other == key {
            Some(value)
        } else {
            field_at(fields, other)
        },
{
    lemma_key_index(fields, key);
    lemma_key_index(fields, other);
    let at = key_index(fields, key);
    let after = upsert(fields, key, value);
    if other == key {
        lemma_key_index_is(after, key, at);
    } else {
        let there = key_index(fields, other);
        if there < fields.len() {
            lemma_key_index_is(after, other, there);
        } else {
            lemma_key_index_is(after, other, after.len() as int);
        }
    }
}

} // verus!
