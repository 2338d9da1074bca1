//! Length-prefixed binary commands.
//!
//! A request frame is `argc:u32` followed by `argc` arguments, each a
//! `len:u32` length prefix and `len` bytes, all little-endian.  `argc`
//! is 2 for `GET key` and `DEL key`, 3 for `SET key value`; the first
//! argument is the command name in ASCII upper case.  Trailing bytes
//! after the frame are ignored, so a fixed-size read buffer can be
//! handed to the parser whole.  A frame that would run past the buffer
//! cap is rejected.

use crate::connection::MAX_MESSAGE_SIZE;
use crate::entry::EntryView;
use crate::hashtable::spec_fnv1a;
use crate::scalablehashmap::{unique_keys, ScalableHashMap};
use crate::wire::{le32_bytes, put_le32, read_le32, u32_from_le};
use vstd::multiset::Multiset;
use vstd::prelude::*;

pub mod del;
pub mod get;
pub mod set;

verus! {

/// Why a request was rejected: a malformed frame, or a first argument
/// that names no command.
#[derive(Debug, Clone, Copy, PartialEq, Eq, Structural)]
pub enum CommandError {
    Framing,
    UnknownCommand,
}

/// A decoded request.
#[derive(Debug)]
pub enum Command {
    Get(Vec<u8>),
    Put(Vec<u8>, Vec<u8>),
    Del(Vec<u8>),
}

/// Ghost image of a decoded request.
pub ghost enum CommandView {
    Get(Seq<u8>),
    Put(Seq<u8>, Seq<u8>),
    Del(Seq<u8>),
}

impl View for Command {
    type V = CommandView;

    open spec fn view(&self) -> CommandView {
        match self {
            Command::Get(k) => CommandView::Get(k@),
            Command::Put(k, v) => CommandView::Put(k@, v@),
            Command::Del(k) => CommandView::Del(k@),
        }
    }
}

impl PartialEq for Command {
    fn eq(&self, other: &Self) -> (r: bool) {
        let r = match (self, other) {
            (Command::Get(a), Command::Get(b)) => crate::hashtable::bytes_eq(a, b),
            (Command::Put(a1, a2), Command::Put(b1, b2)) => {
                let first = crate::hashtable::bytes_eq(a1, b1);
                let second = crate::hashtable::bytes_eq(a2, b2);
                first && second
            },
            (Command::Del(a), Command::Del(b)) => crate::hashtable::bytes_eq(a, b),
            _ => false,
        };
        r
    }
}

impl vstd::std_specs::cmp::PartialEqSpecImpl for Command {
    open spec fn obeys_eq_spec() -> bool {
        true
    }

    open spec fn eq_spec(&self, other: &Command) -> bool {
        self@ == other@
    }
}

/// The little-endian `u32` at `pos`.
pub open spec fn le_at(s: Seq<u8>, pos: int) -> u32
    recommends
        0 <= pos,
        pos + 4 <= s.len(),
{
    u32_from_le(s[pos], s[pos + 1], s[pos + 2], s[pos + 3])
}

/// A complete length-prefixed argument starts at `pos`.
pub open spec fn arg_ok(s: Seq<u8>, pos: int) -> bool {
    &&& pos + 4 <= s.len()
    &&& pos + 4 + le_at(s, pos) <= s.len()
}

/// The bytes of the argument starting at `pos`.
pub open spec fn arg_bytes(s: Seq<u8>, pos: int) -> Seq<u8> {
    s.subrange(pos + 4, pos + 4 + le_at(s, pos))
}

/// The position just past the argument starting at `pos`.
pub open spec fn arg_end(s: Seq<u8>, pos: int) -> int {
    pos + 4 + le_at(s, pos)
}

pub open spec fn get_name() -> Seq<u8> {
    seq![71u8, 69u8, 84u8]
}

pub open spec fn set_name() -> Seq<u8> {
    seq![83u8, 69u8, 84u8]
}

pub open spec fn del_name() -> Seq<u8> {
    seq![68u8, 69u8, 76u8]
}

/// What the parser makes of a byte sequence: the decoded command, or the
/// reason the frame is rejected.  The frame is a prefix of `s`; bytes
/// after it are ignored.  A frame longer than a connection buffer is
/// rejected outright.
pub open spec fn spec_parse(s: Seq<u8>) -> Result<CommandView, CommandError> {
    if s.len() < 4 {
        Err(CommandError::Framing)
    } else {
        let argc = le_at(s, 0);
        if argc != 2 && argc != 3 {
            Err(CommandError::Framing)
        } else if !arg_ok(s, 4) {
            Err(CommandError::Framing)
        } else {
            let name = arg_bytes(s, 4);
            let p1 = arg_end(s, 4);
            if !arg_ok(s, p1) {
                Err(CommandError::Framing)
            } else {
                let key = arg_bytes(s, p1);
                let p2 = arg_end(s, p1);
                if argc == 2 {
                    if p2 > 4 + MAX_MESSAGE_SIZE {
                        Err(CommandError::Framing)
                    } else if name == get_name() {
                        Ok(CommandView::Get(key))
                    } else if name == del_name() {
                        Ok(CommandView::Del(key))
                    } else if name == set_name() {
                        Err(CommandError::Framing)
                    } else {
                        Err(CommandError::UnknownCommand)
                    }
                } else {
                    if !arg_ok(s, p2) {
                        Err(CommandError::Framing)
                    } else {
                        let value = arg_bytes(s, p2);
                        let p3 = arg_end(s, p2);
                        if p3 > 4 + MAX_MESSAGE_SIZE {
                            Err(CommandError::Framing)
                        } else if name == set_name() {
                            Ok(CommandView::Put(key, value))
                        } else if name == get_name() || name == del_name() {
                            Err(CommandError::Framing)
                        } else {
                            Err(CommandError::UnknownCommand)
                        }
                    }
                }
            }
        }
    }
}

/// Reads one length-prefixed argument at `pos`, or rejects the frame.
fn read_arg(request: &[u8], pos: usize) -> (r: Result<(Vec<u8>, usize), CommandError>)
    requires
        pos <= request@.len(),
    ensures
        match r {
            Ok(p) => {
                &&& arg_ok(request@, pos as int)
                &&& p.0@ == arg_bytes(request@, pos as int)
                &&& p.1 == arg_end(request@, pos as int)
                &&& pos < p.1 <= request@.len()
            },
            Err(e) => !arg_ok(request@, pos as int) && e == CommandError::Framing,
        },
{
    if request.len() - pos < 4 {
        return Err(CommandError::Framing);
    }
    let len = read_le32(request, pos) as usize;
    if len > request.len() - (pos + 4) {
        return Err(CommandError::Framing);
    }
    let bytes = vstd::slice::slice_subrange(request, pos + 4, pos + 4 + len);
    let arg = vstd::slice::slice_to_vec(bytes);
    Ok((arg, pos + 4 + len))
}

/// Compares an argument with a three-byte command name.
fn name_is(arg: &Vec<u8>, b0: u8, b1: u8, b2: u8) -> (r: bool)
    ensures
        r == (arg@ == seq![b0, b1, b2]),
{
    let r = arg.len() == 3 && arg[0] == b0 && arg[1] == b1 && arg[2] == b2;
    proof {
        if r {
            assert(arg@ =~= seq![b0, b1, b2]);
        }
    }
    r
}

impl Command {
    /// Decodes the frame at the head of `request`; trailing bytes are
    /// ignored.  Every structural fault is an error, never a panic.
    pub fn parse_request(request: &[u8]) -> (r: Result<Command, CommandError>)
        ensures
            match r {
                Ok(c) => spec_parse(request@) == Ok::<CommandView, CommandError>(c@),
                Err(e) => spec_parse(request@) == Err::<CommandView, CommandError>(e),
            },
    {
        if request.len() < 4 {
            return Err(CommandError::Framing);
        }
        let argc = read_le32(request, 0);
        if argc != 2 && argc != 3 {
            return Err(CommandError::Framing);
        }
        let (name, p1) = match read_arg(request, 4) {
            Ok(p) => p,
            Err(e) => {
                return Err(e);
            },
        };
        let (key, p2) = match read_arg(request, p1) {
            Ok(p) => p,
            Err(e) => {
                return Err(e);
            },
        };
        let is_get = name_is(&name, 71, 69, 84);
        let is_set = name_is(&name, 83, 69, 84);
        let is_del = name_is(&name, 68, 69, 76);
        if argc == 2 {
            if p2 > 4 + MAX_MESSAGE_SIZE {
                Err(CommandError::Framing)
            } else if is_get {
                Ok(Command::Get(key))
            } else if is_del {
                Ok(Command::Del(key))
            } else if is_set {
                Err(CommandError::Framing)
            } else {
                Err(CommandError::UnknownCommand)
            }
        } else {
            let (value, p3) = match read_arg(request, p2) {
                Ok(p) => p,
                Err(e) => {
                    return Err(e);
                },
            };
            if p3 > 4 + MAX_MESSAGE_SIZE {
                Err(CommandError::Framing)
            } else if is_set {
                Ok(Command::Put(key, value))
            } else if is_get || is_del {
                Err(CommandError::Framing)
            } else {
                Err(CommandError::UnknownCommand)
            }
        }
    }
}

/// The encoded frame for the given arguments: the argument count, then
/// each argument length-prefixed.
pub open spec fn spec_encode(args: Seq<Seq<u8>>) -> Seq<u8> {
    le32_bytes(args.len() as u32) + spec_encode_args(args)
}

/// The arguments of a frame, each length-prefixed, in order.
pub open spec fn spec_encode_args(args: Seq<Seq<u8>>) -> Seq<u8>
    decreases args.len(),
{
    if args.len() == 0 {
        Seq::empty()
    } else {
        spec_encode_args(args.drop_last()) + le32_bytes(args.last().len() as u32) + args.last()
    }
}

/// Encodes a request frame for the given arguments.
pub fn encode_request(args: &Vec<Vec<u8>>) -> (r: Vec<u8>)
    requires
        args@.len() <= u32::MAX,
        forall|i: int| 0 <= i < args@.len() ==> (#[trigger] args@[i])@.len() <= u32::MAX,
    ensures
        r@ == spec_encode(args.deep_view()),
{
    let mut out: Vec<u8> = Vec::new();
    put_le32(&mut out, args.len() as u32);
    let mut i: usize = 0;
    while i < args.len()
        invariant
            i <= args@.len(),
            args@.len() <= u32::MAX,
            forall|j: int| 0 <= j < args@.len() ==> (#[trigger] args@[j])@.len() <= u32::MAX,
            out@ == le32_bytes(args@.len() as u32) + spec_encode_args(
                args.deep_view().take(i as int),
            ),
        decreases args@.len() - i,
    {
        let arg = &args[i];
        put_le32(&mut out, arg.len() as u32);
        out.extend_from_slice(arg.as_slice());
        proof {
            assert(args.deep_view().take(i + 1).drop_last() =~= args.deep_view().take(i as int));
            assert(args.deep_view().take(i + 1).last() == args.deep_view()[i as int]);
            assert(args.deep_view()[i as int] == arg@);
            assert(out@ =~= le32_bytes(args@.len() as u32) + spec_encode_args(
                args.deep_view().take(i + 1),
            ));
        }
        i = i + 1;
    }
    proof {
        assert(args.deep_view().take(args.deep_view().len() as int) =~= args.deep_view());
    }
    out
}

/// Some stored record carries this key.
pub open spec fn has_key(ms: Multiset<EntryView>, k: Seq<u8>) -> bool {
    exists|e: EntryView| #[trigger] ms.count(e) > 0 && e.key == k
}

/// The stored record carrying this key.
pub open spec fn entry_for(ms: Multiset<EntryView>, k: Seq<u8>) -> EntryView {
    choose|e: EntryView| ms.count(e) > 0 && e.key == k
}

/// The store as a map from key to stored value.
pub open spec fn kv_of(ms: Multiset<EntryView>) -> Map<Seq<u8>, Option<Seq<u8>>> {
    Map::new(|k: Seq<u8>| has_key(ms, k), |k: Seq<u8>| entry_for(ms, k).value)
}

/// The invariant the commands maintain over the store: both tables
/// well-formed, no key stored twice, every record's code the hash of its
/// key, and keys and values within the message cap.
pub open spec fn store_inv(m: ScalableHashMap) -> bool {
    &&& m.wf()
    &&& unique_keys(m.entry_ms())
    &&& forall|e: EntryView|
        #[trigger] m.entry_ms().count(e) > 0 ==> e.code == spec_fnv1a(e.key) as u64
            && e.key.len() <= MAX_MESSAGE_SIZE && (e.value is Some ==> e.value->Some_0.len() + 5
            <= MAX_MESSAGE_SIZE)
}

/// A value stored under a key leaves room for the response framing.
pub proof fn lemma_kv_value_bounded(m: ScalableHashMap, k: Seq<u8>)
    requires
        store_inv(m),
        kv_of(m.entry_ms()).dom().contains(k),
    ensures
        match kv_of(m.entry_ms())[k] {
            Some(v) => v.len() + 5 <= MAX_MESSAGE_SIZE,
            None => true,
        },
{
    let e = entry_for(m.entry_ms(), k);
    assert(m.entry_ms().count(e) > 0 && e.key == k);
}

/// Every argument of a parsed frame fits the message cap with room for
/// its length prefix.
pub proof fn lemma_parse_arg_bounds(s: Seq<u8>)
    ensures
        match spec_parse(s) {
            Ok(c) => match c {
                CommandView::Get(k) => k.len() + 5 <= MAX_MESSAGE_SIZE,
                CommandView::Del(k) => k.len() + 5 <= MAX_MESSAGE_SIZE,
                CommandView::Put(k, v) => k.len() + 5 <= MAX_MESSAGE_SIZE && v.len() + 5
                    <= MAX_MESSAGE_SIZE,
            },
            Err(e) => true,
        },
{
}

/// Adding a record under a fresh key stores that pair and nothing else.
pub proof fn lemma_kv_insert_fresh(ms: Multiset<EntryView>, e: EntryView)
    requires
        unique_keys(ms),
        !has_key(ms, e.key),
    ensures
        unique_keys(ms.insert(e)),
        kv_of(ms.insert(e)) == kv_of(ms).insert(e.key, e.value),
{
    broadcast use vstd::multiset::group_multiset_axioms;

    let ms2 = ms.insert(e);
    assert(ms.count(e) == 0);
    assert forall|k: Seq<u8>| #![auto] true implies {
        &&& (has_key(ms2, k) <==> has_key(ms, k) || k == e.key)
        &&& (has_key(ms2, k) && k != e.key ==> entry_for(ms2, k) == entry_for(ms, k))
    } by {
        if has_key(ms2, k) {
            let w = choose|w: EntryView| ms2.count(w) > 0 && w.key == k;
            if w != e {
                assert(ms.count(w) > 0);
            }
        }
        if k == e.key {
            assert(ms2.count(e) > 0);
        }
        if has_key(ms, k) {
            let w = choose|w: EntryView| ms.count(w) > 0 && w.key == k;
            assert(ms2.count(w) > 0);
        }
        if has_key(ms2, k) && k != e.key {
            let w1 = entry_for(ms2, k);
            assert(ms2.count(w1) > 0 && w1.key == k);
            assert(ms.count(w1) > 0);
            let w2 = entry_for(ms, k);
            assert(ms.count(w2) > 0 && w2.key == k);
            assert(w1 == w2);
        }
    }
    assert(has_key(ms2, e.key)) by {
        assert(ms2.count(e) > 0);
    }
    assert(entry_for(ms2, e.key) == e) by {
        let w = entry_for(ms2, e.key);
        assert(ms2.count(w) > 0 && w.key == e.key);
        if w != e {
            assert(ms.count(w) > 0);
        }
    }
    assert(kv_of(ms2) =~= kv_of(ms).insert(e.key, e.value));
}

/// Replacing the value of the record under a key updates that pair and
/// nothing else.
pub proof fn lemma_kv_update(ms: Multiset<EntryView>, e: EntryView, v: Option<Seq<u8>>)
    requires
        unique_keys(ms),
        ms.count(e) > 0,
    ensures
        unique_keys(ms.remove(e).insert(EntryView { code: e.code, key: e.key, value: v })),
        kv_of(ms.remove(e).insert(EntryView { code: e.code, key: e.key, value: v })) == kv_of(
            ms,
        ).insert(e.key, v),
{
    broadcast use vstd::multiset::group_multiset_axioms;

    let e2 = EntryView { code: e.code, key: e.key, value: v };
    let ms2 = ms.remove(e).insert(e2);
    assert(ms.count(e) == 1);
    assert forall|w: EntryView| w != e && w != e2 implies #[trigger] ms2.count(w) == ms.count(
        w,
    ) by {}
    assert forall|w1: EntryView, w2: EntryView|
        #![trigger ms2.count(w1), ms2.count(w2)]
        ms2.count(w1) > 0 && ms2.count(w2) > 0 && w1.key == w2.key implies w1 == w2 by {
        if w1 != e2 && ms2.count(w1) > 0 {
            assert(ms.count(w1) > 0);
        }
        if w2 != e2 && ms2.count(w2) > 0 {
            assert(ms.count(w2) > 0);
        }
        if w1 == e2 && w2 != e2 {
            assert(ms.count(w2) > 0 && w2.key == e.key);
            assert(w2 == e);
            assert(ms2.count(e) == 0 || e == e2);
        }
        if w2 == e2 && w1 != e2 {
            assert(ms.count(w1) > 0 && w1.key == e.key);
            assert(w1 == e);
            assert(ms2.count(e) == 0 || e == e2);
        }
    }
    assert forall|k: Seq<u8>| #![auto] true implies {
        &&& (has_key(ms2, k) <==> has_key(ms, k) || k == e.key)
        &&& (has_key(ms2, k) && k != e.key ==> entry_for(ms2, k) == entry_for(ms, k))
    } by {
        if has_key(ms2, k) {
            let w = choose|w: EntryView| ms2.count(w) > 0 && w.key == k;
            if w != e2 {
                assert(ms.count(w) > 0);
            }
        }
        if has_key(ms, k) {
            let w = choose|w: EntryView| ms.count(w) > 0 && w.key == k;
            if w == e {
                assert(ms2.count(e2) > 0);
                assert(e2.key == k);
            } else {
                assert(ms2.count(w) > 0);
            }
        }
        if has_key(ms2, k) && k != e.key {
            let w1 = entry_for(ms2, k);
            assert(ms2.count(w1) > 0 && w1.key == k);
            assert(ms.count(w1) > 0);
            let w2 = entry_for(ms, k);
            assert(ms.count(w2) > 0 && w2.key == k);
        }
    }
    assert(has_key(ms2, e.key)) by {
        assert(ms2.count(e2) > 0);
    }
    assert(entry_for(ms2, e.key) == e2) by {
        let w = entry_for(ms2, e.key);
        assert(ms2.count(w) > 0 && w.key == e.key);
    }
    assert(kv_of(ms2) =~= kv_of(ms).insert(e.key, v));
}

/// Removing the record under a key deletes that pair and nothing else.
pub proof fn lemma_kv_remove(ms: Multiset<EntryView>, e: EntryView)
    requires
        unique_keys(ms),
        ms.count(e) > 0,
    ensures
        unique_keys(ms.remove(e)),
        kv_of(ms.remove(e)) == kv_of(ms).remove(e.key),
{
    broadcast use vstd::multiset::group_multiset_axioms;

    let ms2 = ms.remove(e);
    assert forall|k: Seq<u8>| #![auto] true implies {
        &&& (has_key(ms2, k) <==> has_key(ms, k) && k != e.key)
        &&& (has_key(ms2, k) ==> entry_for(ms2, k) == entry_for(ms, k))
    } by {
        if has_key(ms2, k) {
            let w = choose|w: EntryView| ms2.count(w) > 0 && w.key == k;
            assert(ms.count(w) > 0);
            if k == e.key {
                assert(w == e);
                assert(ms.count(e) <= 1);
            }
        }
        if has_key(ms, k) && k != e.key {
            let w = choose|w: EntryView| ms.count(w) > 0 && w.key == k;
            assert(w != e);
            assert(ms2.count(w) > 0);
        }
        if has_key(ms2, k) {
            let w1 = entry_for(ms2, k);
            assert(ms2.count(w1) > 0 && w1.key == k);
            assert(ms.count(w1) > 0);
            let w2 = entry_for(ms, k);
            assert(ms.count(w2) > 0 && w2.key == k);
        }
    }
    assert(kv_of(ms2) =~= kv_of(ms).remove(e.key));
}

/// With every record's code the hash of its key, a code-and-key probe
/// hits exactly when the key is stored.
pub proof fn lemma_match_is_has_key(m: ScalableHashMap, k: Seq<u8>)
    requires
        store_inv(m),
    ensures
        crate::scalablehashmap::ms_has_match(m.entry_ms(), spec_fnv1a(k) as u64, k) <==> has_key(
            m.entry_ms(),
            k,
        ),
{
    if has_key(m.entry_ms(), k) {
        let e = choose|e: EntryView| m.entry_ms().count(e) > 0 && e.key == k;
        assert(e.code == spec_fnv1a(k) as u64);
        assert(crate::hashtable::entry_matches(e, spec_fnv1a(k) as u64, k));
    }
}

/// The bytes of the miss sentinel.
pub open spec fn not_found_bytes() -> Seq<u8> {
    seq![110u8, 111u8, 116u8, 32u8, 102u8, 111u8, 117u8, 110u8, 100u8]
}

/// The miss sentinel, "not found", as a vector.
pub fn not_found_vec() -> (r: Vec<u8>)
    ensures
        r@ == not_found_bytes(),
{
    let mut v: Vec<u8> = Vec::new();
    v.push(110);
    v.push(111);
    v.push(116);
    v.push(32);
    v.push(102);
    v.push(111);
    v.push(117);
    v.push(110);
    v.push(100);
    proof {
        assert(v@ =~= not_found_bytes());
    }
    v
}

/// In a store without duplicate keys, the number of stored records is
/// the number of stored keys.
pub proof fn lemma_unique_ms_card(ms: Multiset<EntryView>)
    requires
        unique_keys(ms),
    ensures
        kv_of(ms).dom().finite(),
        kv_of(ms).dom().len() == ms.len(),
    decreases ms.len(),
{
    broadcast use vstd::multiset::group_multiset_axioms;

    vstd::multiset::lemma_multiset_empty_len(ms);
    if ms.len() == 0 {
        assert(kv_of(ms).dom() =~= Set::<Seq<u8>>::empty()) by {
            assert forall|k: Seq<u8>| !has_key(ms, k) by {
                if has_key(ms, k) {
                    let e = choose|e: EntryView| ms.count(e) > 0 && e.key == k;
                    assert(ms.count(e) == 0);
                }
            }
        }
    } else {
        let e = choose|e: EntryView| 0 < ms.count(e);
        let ms2 = ms.remove(e);
        assert(ms2.insert(e) =~= ms);
        vstd::multiset::lemma_insert_len(ms2, e);
        lemma_kv_remove(ms, e);
        lemma_unique_ms_card(ms2);
        assert(kv_of(ms2).dom() =~= kv_of(ms).dom().remove(e.key));
        assert(kv_of(ms).dom().contains(e.key)) by {
            assert(ms.count(e) > 0 && e.key == e.key);
        }
        assert(kv_of(ms).dom() =~= kv_of(ms2).dom().insert(e.key));
        assert(!kv_of(ms2).dom().contains(e.key));
        assert(kv_of(ms).dom().len() == kv_of(ms2).dom().len() + 1) by {
            broadcast use vstd::set_lib::group_set_properties;
        }
    }
}

/// The logical size of a coherent store is the number of stored keys.
pub proof fn lemma_store_size_is_key_count(m: ScalableHashMap)
    requires
        store_inv(m),
    ensures
        kv_of(m.entry_ms()).dom().finite(),
        m.spec_size() == kv_of(m.entry_ms()).dom().len(),
{
    broadcast use vstd::multiset::group_multiset_axioms, vstd::seq_lib::group_to_multiset_ensures;

    lemma_unique_ms_card(m.entry_ms());
    assert(m.entry_ms().len() == m.spec_size());
}

/// One store operation of a workload: create-or-overwrite, or delete.
pub ghost enum StoreOp {
    Put(Seq<u8>, Seq<u8>),
    Del(Seq<u8>),
}

/// The store after one operation.
pub open spec fn apply_op(kv: Map<Seq<u8>, Option<Seq<u8>>>, op: StoreOp) -> Map<
    Seq<u8>,
    Option<Seq<u8>>,
> {
    match op {
        StoreOp::Put(k, v) => kv.insert(k, Some(v)),
        StoreOp::Del(k) => kv.remove(k),
    }
}

/// The store after a workload, first operation first.
pub open spec fn apply_ops(kv: Map<Seq<u8>, Option<Seq<u8>>>, ops: Seq<StoreOp>) -> Map<
    Seq<u8>,
    Option<Seq<u8>>,
> decreases ops.len(),
{
    if ops.len() == 0 {
        kv
    } else {
        apply_ops(apply_op(kv, ops[0]), ops.drop_first())
    }
}

/// What a workload adds to the key count: one for each `Put` of a key
/// absent at its turn, minus one for each `Del` of a key present at its
/// turn.
pub open spec fn op_delta(kv: Map<Seq<u8>, Option<Seq<u8>>>, ops: Seq<StoreOp>) -> int
    decreases ops.len(),
{
    if ops.len() == 0 {
        0
    } else {
        (match ops[0] {
            StoreOp::Put(k, v) => if kv.dom().contains(k) {
                0int
            } else {
                1int
            },
            StoreOp::Del(k) => if kv.dom().contains(k) {
                -1int
            } else {
                0int
            },
        }) + op_delta(apply_op(kv, ops[0]), ops.drop_first())
    }
}

/// For any workload, the logical size of the store is the starting size
/// plus the workload's net growth: each fresh insert adds one key, each
/// delete of a present key removes one.
pub proof fn lemma_workload_size(kv: Map<Seq<u8>, Option<Seq<u8>>>, ops: Seq<StoreOp>)
    requires
        kv.dom().finite(),
    ensures
        apply_ops(kv, ops).dom().finite(),
        apply_ops(kv, ops).dom().len() == kv.dom().len() + op_delta(kv, ops),
    decreases ops.len(),
{
    broadcast use vstd::set_lib::group_set_properties;

    if ops.len() == 0 {
    } else {
        let kv1 = apply_op(kv, ops[0]);
        assert(kv1.dom().finite() && kv1.dom().len() == kv.dom().len() + (match ops[0] {
            StoreOp::Put(k, v) => if kv.dom().contains(k) {
                0int
            } else {
                1int
            },
            StoreOp::Del(k) => if kv.dom().contains(k) {
                -1int
            } else {
                0int
            },
        })) by {
            match ops[0] {
                StoreOp::Put(k, v) => {
                    assert(kv1.dom() =~= kv.dom().insert(k));
                },
                StoreOp::Del(k) => {
                    assert(kv1.dom() =~= kv.dom().remove(k));
                },
            }
        }
        lemma_workload_size(kv1, ops.drop_first());
    }
}

/// `le_at` reads back what `le32_bytes` wrote.
proof fn lemma_le_at(s: Seq<u8>, pos: int, x: u32)
    requires
        0 <= pos,
        pos + 4 <= s.len(),
        s.subrange(pos, pos + 4) == le32_bytes(x),
    ensures
        le_at(s, pos) == x,
{
    crate::wire::lemma_le32_roundtrip(x);
    assert(s[pos] == le32_bytes(x)[0]) by {
        assert(s.subrange(pos, pos + 4)[0] == s[pos]);
    }
    assert(s[pos + 1] == le32_bytes(x)[1]) by {
        assert(s.subrange(pos, pos + 4)[1] == s[pos + 1]);
    }
    assert(s[pos + 2] == le32_bytes(x)[2]) by {
        assert(s.subrange(pos, pos + 4)[2] == s[pos + 2]);
    }
    assert(s[pos + 3] == le32_bytes(x)[3]) by {
        assert(s.subrange(pos, pos + 4)[3] == s[pos + 3]);
    }
}

/// Round trip for the two-argument commands: an encoded `GET key` or
/// `DEL key` frame parses back to exactly that command.
pub proof fn lemma_parse_encode_two(name: Seq<u8>, k: Seq<u8>)
    requires
        name == get_name() || name == del_name(),
        k.len() <= u32::MAX,
        15 + k.len() <= 4 + MAX_MESSAGE_SIZE,
    ensures
        name == get_name() ==> spec_parse(spec_encode(seq![name, k])) == Ok::<
            CommandView,
            CommandError,
        >(CommandView::Get(k)),
        name == del_name() ==> spec_parse(spec_encode(seq![name, k])) == Ok::<
            CommandView,
            CommandError,
        >(CommandView::Del(k)),
{
    let args = seq![name, k];
    let s = spec_encode(args);
    assert(name.len() == 3) by {
        assert(get_name().len() == 3 && del_name().len() == 3);
    }
    assert(args.drop_last() =~= seq![name]);
    assert(seq![name].drop_last() =~= Seq::<Seq<u8>>::empty());
    assert(args.last() == k && seq![name].last() == name);
    assert(spec_encode_args(Seq::<Seq<u8>>::empty()) =~= Seq::<u8>::empty());
    assert(spec_encode_args(seq![name]) =~= le32_bytes(3) + name);
    assert(spec_encode_args(args) =~= le32_bytes(3) + name + le32_bytes(k.len() as u32) + k);
    assert(s =~= le32_bytes(2) + le32_bytes(3) + name + le32_bytes(k.len() as u32) + k);
    assert(s.len() == 15 + k.len());
    assert(s.subrange(0, 4) =~= le32_bytes(2));
        lemma_le_at(s, 0, 2);
    assert(s.subrange(4, 8) =~= le32_bytes(3));
        lemma_le_at(s, 4, 3);
    assert(arg_ok(s, 4));
    assert(arg_bytes(s, 4) =~= name);
    assert(arg_end(s, 4) == 11);
    assert(s.subrange(11, 15) =~= le32_bytes(k.len() as u32));
        lemma_le_at(s, 11, k.len() as u32);
    assert(arg_ok(s, 11));
    assert(arg_bytes(s, 11) =~= k);
    assert(arg_end(s, 11) == 15 + k.len());
    assert(get_name() != set_name() && del_name() != set_name() && get_name() != del_name()) by {
        assert(get_name()[0] == 71u8 && set_name()[0] == 83u8 && del_name()[0] == 68u8);
    }
}

/// Round trip for `SET key value`: an encoded frame parses back to
/// exactly that command.
#[verifier::rlimit(80)]
pub proof fn lemma_parse_encode_set(k: Seq<u8>, v: Seq<u8>)
    requires
        k.len() <= u32::MAX,
        v.len() <= u32::MAX,
        19 + k.len() + v.len() <= 4 + MAX_MESSAGE_SIZE,
    ensures
        spec_parse(spec_encode(seq![set_name(), k, v])) == Ok::<CommandView, CommandError>(
            CommandView::Put(k, v),
        ),
{
    let args = seq![set_name(), k, v];
    let s = spec_encode(args);
    assert(set_name().len() == 3);
    assert(args.drop_last() =~= seq![set_name(), k]);
    assert(seq![set_name(), k].drop_last() =~= seq![set_name()]);
    assert(seq![set_name()].drop_last() =~= Seq::<Seq<u8>>::empty());
    assert(args.last() == v && seq![set_name(), k].last() == k && seq![set_name()].last()
        == set_name());
    assert(spec_encode_args(Seq::<Seq<u8>>::empty()) =~= Seq::<u8>::empty());
    assert(spec_encode_args(seq![set_name()]) =~= le32_bytes(3) + set_name());
    assert(spec_encode_args(seq![set_name(), k]) =~= le32_bytes(3) + set_name() + le32_bytes(
        k.len() as u32,
    ) + k);
    assert(spec_encode_args(args) =~= le32_bytes(3) + set_name() + le32_bytes(k.len() as u32) + k
        + le32_bytes(v.len() as u32) + v);
    assert(s =~= le32_bytes(3) + le32_bytes(3) + set_name() + le32_bytes(k.len() as u32) + k
        + le32_bytes(v.len() as u32) + v);
    assert(s.len() == 19 + k.len() + v.len());
    assert(s.subrange(0, 4) =~= le32_bytes(3));
        lemma_le_at(s, 0, 3);
    assert(s.subrange(4, 8) =~= le32_bytes(3));
        lemma_le_at(s, 4, 3);
    assert(arg_ok(s, 4));
    assert(arg_bytes(s, 4) =~= set_name());
    assert(arg_end(s, 4) == 11);
    assert(s.subrange(11, 15) =~= le32_bytes(k.len() as u32));
        lemma_le_at(s, 11, k.len() as u32);
    assert(arg_ok(s, 11));
    assert(arg_bytes(s, 11) =~= k);
    let p2 = 15 + k.len() as int;
    assert(arg_end(s, 11) == p2);
    assert(s.subrange(p2, p2 + 4) =~= le32_bytes(v.len() as u32));
        lemma_le_at(s, p2, v.len() as u32);
    assert(arg_ok(s, p2));
    assert(arg_bytes(s, p2) =~= v);
    assert(arg_end(s, p2) == 19 + k.len() + v.len());
    assert(set_name() != get_name() && set_name() != del_name()) by {
        assert(get_name()[0] == 71u8 && set_name()[0] == 83u8 && del_name()[0] == 68u8);
    }
}

} // verus!
