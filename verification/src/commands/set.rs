//! The SET command.

use crate::commands::{has_key, kv_of, lemma_kv_insert_fresh, lemma_kv_update,
    lemma_match_is_has_key, store_inv};
use crate::connection::MAX_MESSAGE_SIZE;
use crate::entry::{clone_bytes, Entry, EntryView};
use crate::hashtable::{fnv1a_hash, HashNode};
use crate::scalablehashmap::ScalableHashMap;
use crate::serialization::{response_nil, spec_response_nil};
use vstd::prelude::*;

verus! {

/// Creates or overwrites the key's value and appends a nil response to
/// `out`.  A key already stored keeps its single record: the store is
/// probed first, so no second record for the key ever appears.
pub fn invoke(db: &mut ScalableHashMap, key: Vec<u8>, value: Vec<u8>, out: &mut Vec<u8>)
    requires
        store_inv(*old(db)),
        old(db).spec_size() < usize::MAX,
        key@.len() <= MAX_MESSAGE_SIZE,
        value@.len() + 5 <= MAX_MESSAGE_SIZE,
    ensures
        store_inv(*final(db)),
        kv_of(final(db).entry_ms()) == kv_of(old(db).entry_ms()).insert(key@, Some(value@)),
        final(db).spec_size() == old(db).spec_size() + (if has_key(old(db).entry_ms(), key@) {
            0int
        } else {
            1int
        }),
        final(out)@ == old(out)@ + spec_response_nil(),
{
    let ghost key_view = key@;
    let ghost value_view = value@;
    let code = fnv1a_hash(key.as_slice());
    let key_for_not_found = clone_bytes(&key);
    let value_for_not_found = clone_bytes(&value);
    let node = HashNode::new(None, code);
    let entry = Entry::new(node, key, Some(value));
    proof {
        lemma_match_is_has_key(*old(db), key_view);
    }
    let found = db.lookup_mut(&entry);
    if !found {
        let node = HashNode::new(None, code);
        let fresh = Entry::new(node, key_for_not_found, Some(value_for_not_found));
        proof {
            assert(!has_key(old(db).entry_ms(), key_view));
            assert(fresh@ == EntryView {
                code: crate::hashtable::spec_fnv1a(key_view) as u64,
                key: key_view,
                value: Some(value_view),
            });
            lemma_kv_insert_fresh(old(db).entry_ms(), fresh@);
        }
        db.insert(fresh);
        proof {
            assert forall|e: EntryView| #[trigger]
                db.entry_ms().count(e) > 0 implies e.code == crate::hashtable::spec_fnv1a(
                e.key,
            ) as u64 && e.key.len() <= MAX_MESSAGE_SIZE && (e.value is Some
                ==> e.value->Some_0.len() <= MAX_MESSAGE_SIZE) by {
                broadcast use vstd::multiset::group_multiset_axioms;

                if e != fresh@ {
                    assert(old(db).entry_ms().count(e) > 0);
                }
            }
        }
        response_nil(out);
        return ;
    }
    proof {
        broadcast use vstd::multiset::group_multiset_axioms;

        let ms = old(db).entry_ms();
        let e = choose|e: EntryView|
            ms.count(e) > 0 && crate::hashtable::entry_matches(e, entry@.code, entry@.key)
                && db.entry_ms() == ms.remove(e).insert(
                EntryView { code: e.code, key: e.key, value: entry@.value },
            );
        lemma_kv_update(ms, e, Some(value_view));
        let e2 = EntryView { code: e.code, key: e.key, value: Some(value_view) };
        assert(kv_of(db.entry_ms()) == kv_of(ms).insert(key_view, Some(value_view)));
        assert(has_key(ms, key_view)) by {
            assert(ms.count(e) > 0 && e.key == key_view);
        }
        assert forall|w: EntryView| #[trigger]
            db.entry_ms().count(w) > 0 implies w.code == crate::hashtable::spec_fnv1a(
            w.key,
        ) as u64 && w.key.len() <= MAX_MESSAGE_SIZE && (w.value is Some ==> w.value->Some_0.len()
            <= MAX_MESSAGE_SIZE) by {
            if w != e2 {
                assert(ms.count(w) > 0);
            } else {
                assert(ms.count(e) > 0);
            }
        }
    }
    response_nil(out);
}

} // verus!
