//! The DEL command.

use crate::commands::{has_key, kv_of, lemma_kv_remove, lemma_match_is_has_key, store_inv};
use crate::entry::{Entry, EntryView};
use crate::hashtable::{fnv1a_hash, HashNode};
use crate::scalablehashmap::ScalableHashMap;
use crate::serialization::{response_integer, spec_response_integer};
use vstd::prelude::*;

verus! {

/// Removes the key's record and appends an integer response to `out`:
/// one when a record was removed, zero when the key was absent.
pub fn invoke(db: &mut ScalableHashMap, key: Vec<u8>, out: &mut Vec<u8>)
    requires
        store_inv(*old(db)),
    ensures
        store_inv(*final(db)),
        kv_of(final(db).entry_ms()) == kv_of(old(db).entry_ms()).remove(key@),
        final(db).spec_size() == old(db).spec_size() - (if has_key(old(db).entry_ms(), key@) {
            1int
        } else {
            0int
        }),
        final(out)@ == old(out)@ + spec_response_integer(
            if has_key(old(db).entry_ms(), key@) {
                1
            } else {
                0
            },
        ),
{
    let ghost key_view = key@;
    let code = fnv1a_hash(key.as_slice());
    let node = HashNode::new(None, code);
    let entry = Entry::new(node, key, None);
    proof {
        lemma_match_is_has_key(*old(db), key_view);
    }
    let found = db.pop(&entry);
    if found.is_some() {
        proof {
            broadcast use vstd::multiset::group_multiset_axioms;

            let ms = old(db).entry_ms();
            let e = found->Some_0;
            assert(ms.count(e@) > 0);
            lemma_kv_remove(ms, e@);
            assert(has_key(ms, key_view)) by {
                assert(ms.count(e@) > 0 && e@.key == key_view);
            }
            assert forall|w: EntryView| #[trigger]
                db.entry_ms().count(w) > 0 implies w.code == crate::hashtable::spec_fnv1a(
                w.key,
            ) as u64 && w.key.len() <= crate::connection::MAX_MESSAGE_SIZE && (w.value is Some
                ==> w.value->Some_0.len() <= crate::connection::MAX_MESSAGE_SIZE) by {
                assert(ms.count(w) > 0);
            }
        }
        response_integer(out, 1);
    } else {
        proof {
            assert(!has_key(old(db).entry_ms(), key_view));
            assert(kv_of(db.entry_ms()) =~= kv_of(old(db).entry_ms()).remove(key_view));
        }
        response_integer(out, 0);
    }
}

} // verus!
