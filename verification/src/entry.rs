//! Stored records.
//!
//! An [`Entry`] is a keyed record: it embeds the [`HashNode`] that links it
//! into a bucket chain, the key bytes, and an optional value.  The ghost
//! [`EntryView`] is the record as the contracts see it: hash code, key and
//! value, with the chain link abstracted away.

use crate::hashtable::HashNode;
use crate::scalablehashmap::ScalableHashMap;
use vstd::prelude::*;

verus! {

/// Ghost image of a stored record.
pub ghost struct EntryView {
    pub code: u64,
    pub key: Seq<u8>,
    pub value: Option<Seq<u8>>,
}

/// The view of an optional byte vector.
pub open spec fn opt_bytes(v: Option<Vec<u8>>) -> Option<Seq<u8>> {
    match v {
        Some(b) => Some(b@),
        None => None,
    }
}

/// A keyed record that lives in a bucket chain of a hash table.
#[derive(Debug)]
pub struct Entry {
    pub node: HashNode,
    pub key: Vec<u8>,
    pub value: Option<Vec<u8>>,
}

impl View for Entry {
    type V = EntryView;

    open spec fn view(&self) -> EntryView {
        EntryView { code: self.node.code, key: self.key@, value: opt_bytes(self.value) }
    }
}

impl Entry {
    pub fn new(node: HashNode, key: Vec<u8>, value: Option<Vec<u8>>) -> (r: Self)
        ensures
            r.node == node,
            r.key == key,
            r.value == value,
    {
        Self { node, key, value }
    }

    /// Two stored records are logically equal when their key bytes are
    /// equal; the hash code and the value play no part.
    pub fn check_entry_equality(left: &Entry, right: &Entry) -> (r: bool)
        ensures
            r == (left@.key == right@.key),
    {
        crate::hashtable::bytes_eq(&left.key, &right.key)
    }
}

/// Copies a byte vector.
pub fn clone_bytes(v: &Vec<u8>) -> (r: Vec<u8>)
    ensures
        r@ == v@,
{
    let r = v.clone();
    proof {
        assert forall|i: int| 0 <= i < v@.len() implies r@[i] == v@[i] by {
            assert(vstd::pervasive::cloned::<u8>(v@[i], r@[i]));
        }
        assert(r@ =~= v@);
    }
    r
}

/// Copies an optional byte vector.
pub fn clone_opt_bytes(v: &Option<Vec<u8>>) -> (r: Option<Vec<u8>>)
    ensures
        opt_bytes(r) == opt_bytes(*v),
{
    match v {
        None => None,
        Some(b) => Some(clone_bytes(b)),
    }
}

/// The store a server dispatches commands against.
pub struct Data {
    pub db: ScalableHashMap,
}

impl Data {
    pub fn new() -> (r: Self)
        ensures
            r.db.wf(),
            r.db.entry_ms() == vstd::multiset::Multiset::<EntryView>::empty(),
            r.db.spec_size() == 0,
    {
        Self { db: ScalableHashMap::new() }
    }
}

} // verus!
