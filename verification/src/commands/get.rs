//! The GET command.

use crate::commands::{has_key, kv_of, lemma_match_is_has_key, not_found_bytes, not_found_vec,
    store_inv};
use crate::entry::Entry;
use crate::hashtable::{fnv1a_hash, HashNode};
use crate::scalablehashmap::ScalableHashMap;
use crate::serialization::{response_nil, response_string, spec_response_nil, spec_response_string};
use vstd::prelude::*;

verus! {

/// What a GET answers: the stored value as a string response, a nil
/// response for a key stored without a value, and the miss sentinel for
/// an absent key.
pub open spec fn spec_get_response(kv: Map<Seq<u8>, Option<Seq<u8>>>, k: Seq<u8>) -> Seq<u8> {
    if kv.dom().contains(k) {
        match kv[k] {
            Some(v) => spec_response_string(v),
            None => spec_response_nil(),
        }
    } else {
        spec_response_string(not_found_bytes())
    }
}

/// Looks the key up and appends the response to `out`; the store is
/// read, never changed.
pub fn invoke(db: &mut ScalableHashMap, key: Vec<u8>, out: &mut Vec<u8>)
    requires
        store_inv(*old(db)),
    ensures
        store_inv(*final(db)),
        final(db).entry_ms() == old(db).entry_ms(),
        final(db).spec_size() == old(db).spec_size(),
        final(out)@ == old(out)@ + spec_get_response(kv_of(old(db).entry_ms()), key@),
{
    let ghost key_view = key@;
    let code = fnv1a_hash(key.as_slice());
    let node = HashNode::new(None, code);
    let entry = Entry::new(node, key, None);
    proof {
        lemma_match_is_has_key(*old(db), key_view);
    }
    let found = db.lookup(&entry);
    match found {
        None => {
            proof {
                assert(!has_key(old(db).entry_ms(), key_view));
            }
            let sentinel = not_found_vec();
            response_string(out, sentinel.as_slice());
        },
        Some(e) => {
            proof {
                let ms = old(db).entry_ms();
                assert(has_key(ms, key_view)) by {
                    assert(ms.count(e@) > 0 && e@.key == key_view);
                }
                let w = crate::commands::entry_for(ms, key_view);
                assert(ms.count(w) > 0 && w.key == key_view);
                assert(w == e@);
            }
            match &e.value {
                Some(v) => {
                    response_string(out, v.as_slice());
                },
                None => {
                    response_nil(out);
                },
            }
        },
    }
}

} // verus!
