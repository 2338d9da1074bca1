//! Chained hash table with intrusive bucket chains.
//!
//! The table is a vector of `2^k` bucket slots; each slot owns a singly
//! linked chain of [`Entry`] records, linked through the [`HashNode`]
//! embedded in every record.  A record's bucket is `code & mask`.  The
//! table itself does not deduplicate keys: callers look up before they
//! insert.
//!
//! The contracts speak of the table as a sequence of bucket sequences of
//! [`EntryView`]s; the well-formedness predicate ties every stored record
//! to the bucket its code selects, and the size to the number of stored
//! records.

use crate::entry::{opt_bytes, Entry, EntryView};
use vstd::prelude::*;
use vstd::multiset::Multiset;
use vstd::std_specs::cmp::PartialEqSpec;
use vstd::seq_lib::lemma_multiset_commutative;

verus! {

broadcast use vstd::seq_lib::group_seq_properties;

/// The intrusive link embedded in every stored record: the record's
/// precomputed hash code and the owning link to the next record in the
/// same bucket chain.
#[derive(Debug)]
pub struct HashNode {
    pub next: Option<Box<Entry>>,
    pub code: u64,
}

impl HashNode {
    pub fn new(next: Option<Box<Entry>>, code: u64) -> (r: Self)
        ensures
            r.next == next,
            r.code == code,
    {
        Self { next, code }
    }
}

/// FNV-1a-style accumulation over a byte sequence: start at the 32-bit
/// offset basis, then add each byte and multiply by the prime, wrapping
/// at 32 bits.
pub open spec fn spec_fnv1a(bytes: Seq<u8>) -> u32
    decreases bytes.len(),
{
    if bytes.len() == 0 {
        0x811C9DC5u32
    } else {
        ((spec_fnv1a(bytes.drop_last()) + bytes.last()) * 0x01000193 % 0x100000000) as u32
    }
}

/// Hashes key bytes, widening the 32-bit state to the 64-bit bucket code.
pub fn fnv1a_hash(bytes: &[u8]) -> (r: u64)
    ensures
        r == spec_fnv1a(bytes@) as u64,
{
    let mut h: u32 = 0x811C9DC5;
    let mut i: usize = 0;
    while i < bytes.len()
        invariant
            i <= bytes@.len(),
            h == spec_fnv1a(bytes@.take(i as int)),
        decreases bytes@.len() - i,
    {
        let wide: u64 = ((h as u64) + (bytes[i] as u64)) * 0x01000193 % 0x100000000;
        proof {
            assert(bytes@.take(i + 1).drop_last() =~= bytes@.take(i as int));
            assert(bytes@.take(i + 1).last() == bytes@[i as int]);
        }
        h = wide as u32;
        i = i + 1;
    }
    proof {
        assert(bytes@.take(bytes@.len() as int) =~= bytes@);
    }
    h as u64
}

/// Compares two byte vectors.
pub fn bytes_eq(a: &Vec<u8>, b: &Vec<u8>) -> (r: bool)
    ensures
        r == (a@ == b@),
{
    let r = a == b;
    proof {
        if r {
            assert(a@ =~= b@);
        } else {
            if a@ == b@ {
                assert(a.eq_spec(b));
            }
        }
    }
    r
}

/// `n` is a power of two.
pub open spec fn is_pow2(n: u64) -> bool {
    n != 0 && (n & ((n - 1) as u64)) == 0
}

/// A masked code never exceeds the mask.
pub proof fn lemma_and_mask_le(x: u64, m: u64)
    ensures
        (x & m) <= m,
{
    assert((x & m) <= m) by (bit_vector);
}

/// Doubling a power of two yields a power of two.
pub proof fn lemma_pow2_double(n: u64)
    requires
        is_pow2(n),
        n <= u64::MAX / 2,
    ensures
        is_pow2((2 * n) as u64),
{
    assert(n != 0 && (n & ((n - 1) as u64)) == 0 && n <= u64::MAX / 2 ==> (2 * n) as u64 != 0 && (
    ((2 * n) as u64) & ((((2 * n) as u64) - 1) as u64)) == 0) by (bit_vector);
}

/// The view of a bucket chain: the stored records in chain order.
pub open spec fn chain_view(c: Option<Box<Entry>>) -> Seq<EntryView>
    decreases c,
{
    match c {
        None => Seq::empty(),
        Some(e) => seq![e@] + chain_view(e.node.next),
    }
}

/// A record answers a probe when both the code and the key bytes agree.
pub open spec fn entry_matches(e: EntryView, code: u64, key: Seq<u8>) -> bool {
    e.code == code && e.key == key
}

/// Some record of `s` answers the probe.
pub open spec fn has_match(s: Seq<EntryView>, code: u64, key: Seq<u8>) -> bool {
    exists|i: int| 0 <= i < s.len() && entry_matches(#[trigger] s[i], code, key)
}

/// The first record of `s` that answers the probe, if any.
pub open spec fn first_match(s: Seq<EntryView>, code: u64, key: Seq<u8>) -> Option<EntryView>
    decreases s.len(),
{
    if s.len() == 0 {
        None
    } else if entry_matches(s[0], code, key) {
        Some(s[0])
    } else {
        first_match(s.drop_first(), code, key)
    }
}

/// `s` with its first record answering the probe removed.
pub open spec fn remove_first_match(s: Seq<EntryView>, code: u64, key: Seq<u8>) -> Seq<EntryView>
    decreases s.len(),
{
    if s.len() == 0 {
        s
    } else if entry_matches(s[0], code, key) {
        s.drop_first()
    } else {
        seq![s[0]] + remove_first_match(s.drop_first(), code, key)
    }
}

/// `s` with the value of its first record answering the probe replaced.
pub open spec fn update_first_match(
    s: Seq<EntryView>,
    code: u64,
    key: Seq<u8>,
    value: Option<Seq<u8>>,
) -> Seq<EntryView>
    decreases s.len(),
{
    if s.len() == 0 {
        s
    } else if entry_matches(s[0], code, key) {
        seq![EntryView { code: s[0].code, key: s[0].key, value }] + s.drop_first()
    } else {
        seq![s[0]] + update_first_match(s.drop_first(), code, key, value)
    }
}

/// `first_match` answers exactly when some record matches, with a record
/// of the sequence.
pub proof fn lemma_first_match(s: Seq<EntryView>, code: u64, key: Seq<u8>)
    ensures
        first_match(s, code, key) is Some <==> has_match(s, code, key),
        match first_match(s, code, key) {
            Some(e) => s.contains(e) && entry_matches(e, code, key),
            None => true,
        },
    decreases s.len(),
{
    if s.len() == 0 {
    } else if entry_matches(s[0], code, key) {
    } else {
        lemma_first_match(s.drop_first(), code, key);
        if has_match(s.drop_first(), code, key) {
            let i = choose|i: int|
                0 <= i < s.drop_first().len() && entry_matches(s.drop_first()[i], code, key);
            assert(entry_matches(s[i + 1], code, key));
        }
        if has_match(s, code, key) {
            let i = choose|i: int| 0 <= i < s.len() && entry_matches(s[i], code, key);
            assert(i != 0);
            assert(entry_matches(s.drop_first()[i - 1], code, key));
        }
        match first_match(s.drop_first(), code, key) {
            Some(e) => {
                let j = choose|j: int| 0 <= j < s.drop_first().len() && s.drop_first()[j] == e;
                assert(s[j + 1] == e);
            },
            None => {},
        }
    }
}

/// Removing the first matching record removes exactly that record: one
/// fewer record, the multiset loses one copy of it, and nothing else
/// changes.
pub proof fn lemma_remove_first_match(s: Seq<EntryView>, code: u64, key: Seq<u8>)
    ensures
        match first_match(s, code, key) {
            Some(e) => {
                &&& remove_first_match(s, code, key).len() == s.len() - 1
                &&& s.to_multiset().count(e) > 0
                &&& remove_first_match(s, code, key).to_multiset() == s.to_multiset().remove(e)
            },
            None => remove_first_match(s, code, key) == s,
        },
    decreases s.len(),
{
    broadcast use vstd::seq_lib::group_to_multiset_ensures;

    if s.len() == 0 {
    } else if entry_matches(s[0], code, key) {
        assert(s.drop_first() =~= s.remove(0));
        assert(s.contains(s[0]));
    } else {
        lemma_remove_first_match(s.drop_first(), code, key);
        lemma_first_match(s.drop_first(), code, key);
        let rest = s.drop_first();
        match first_match(s, code, key) {
            Some(e) => {
                let r = remove_first_match(s, code, key);
                assert(r == seq![s[0]] + remove_first_match(rest, code, key));
                assert(s =~= seq![s[0]] + rest);
                lemma_multiset_commutative(seq![s[0]], rest);
                lemma_multiset_commutative(seq![s[0]], remove_first_match(rest, code, key));
                assert(rest.contains(e));
                assert(rest.to_multiset().count(e) > 0);
                assert(s.to_multiset() == seq![s[0]].to_multiset().add(rest.to_multiset()));
                assert(r.to_multiset() == seq![s[0]].to_multiset().add(
                    rest.to_multiset().remove(e),
                ));
                assert(r.to_multiset() =~= s.to_multiset().remove(e));
            },
            None => {
                assert(remove_first_match(s, code, key) =~= s);
            },
        }
    }
}

/// Replacing the value of the first matching record keeps every code and
/// key in place, and trades one copy of the old record for the updated
/// one in the multiset.
pub proof fn lemma_update_first_match(s: Seq<EntryView>, code: u64, key: Seq<u8>, value: Option<
    Seq<u8>,
>)
    ensures
        update_first_match(s, code, key, value).len() == s.len(),
        forall|j: int|
            0 <= j < s.len() ==> (#[trigger] update_first_match(s, code, key, value)[j]).code
                == s[j].code && update_first_match(s, code, key, value)[j].key == s[j].key,
        match first_match(s, code, key) {
            Some(e) => {
                &&& s.to_multiset().count(e) > 0
                &&& update_first_match(s, code, key, value).to_multiset() == s.to_multiset().remove(
                    e,
                ).insert(EntryView { code: e.code, key: e.key, value })
            },
            None => update_first_match(s, code, key, value) == s,
        },
    decreases s.len(),
{
    broadcast use vstd::seq_lib::group_to_multiset_ensures;

    if s.len() == 0 {
    } else if entry_matches(s[0], code, key) {
        let e = s[0];
        let e2 = EntryView { code: e.code, key: e.key, value };
        let r = update_first_match(s, code, key, value);
        assert(r == seq![e2] + s.drop_first());
        assert(s =~= seq![e] + s.drop_first());
        lemma_multiset_commutative(seq![e], s.drop_first());
        lemma_multiset_commutative(seq![e2], s.drop_first());
        assert(s.contains(s[0]));
        assert(seq![e2].to_multiset() =~= Multiset::empty().insert(e2)) by {
            assert(seq![e2].drop_first() =~= Seq::<EntryView>::empty());
        }
        assert(seq![e].to_multiset() =~= Multiset::empty().insert(e)) by {
            assert(seq![e].drop_first() =~= Seq::<EntryView>::empty());
        }
        assert(r.to_multiset() =~= s.to_multiset().remove(e).insert(e2));
    } else {
        lemma_update_first_match(s.drop_first(), code, key, value);
        lemma_first_match(s.drop_first(), code, key);
        let rest = s.drop_first();
        let r = update_first_match(s, code, key, value);
        assert(r == seq![s[0]] + update_first_match(rest, code, key, value));
        assert(s =~= seq![s[0]] + rest);
        lemma_multiset_commutative(seq![s[0]], rest);
        lemma_multiset_commutative(seq![s[0]], update_first_match(rest, code, key, value));
        assert(forall|j: int| 0 <= j < rest.len() ==> s[j + 1] == #[trigger] rest[j]);
        match first_match(s, code, key) {
            Some(e) => {
                let e2 = EntryView { code: e.code, key: e.key, value };
                assert(rest.contains(e));
                assert(rest.to_multiset().count(e) > 0);
                assert(r.to_multiset() =~= s.to_multiset().remove(e).insert(e2));
            },
            None => {
                assert(r =~= s);
            },
        }
    }
}

/// Concatenation of a sequence of sequences, in order.
pub open spec fn concat_all<A>(s: Seq<Seq<A>>) -> Seq<A>
    decreases s.len(),
{
    if s.len() == 0 {
        Seq::empty()
    } else {
        s[0] + concat_all(s.drop_first())
    }
}

/// A concatenation splits around any index.
pub proof fn lemma_concat_split<A>(s: Seq<Seq<A>>, i: int)
    requires
        0 <= i < s.len(),
    ensures
        concat_all(s) == concat_all(s.take(i)) + s[i] + concat_all(s.skip(i + 1)),
    decreases i,
{
    if i == 0 {
        assert(s.take(0) =~= Seq::<Seq<A>>::empty());
        assert(concat_all(s.take(0)) + s[0] =~= s[0]);
        assert(s.skip(1) =~= s.drop_first());
    } else {
        lemma_concat_split(s.drop_first(), i - 1);
        assert(s.drop_first().take(i - 1) =~= s.take(i).drop_first());
        assert(s.drop_first().skip(i) =~= s.skip(i + 1));
        assert(s.drop_first()[i - 1] == s[i]);
        assert(concat_all(s) == s[0] + concat_all(s.drop_first()));
        assert(concat_all(s.take(i)) == s.take(i)[0] + concat_all(s.take(i).drop_first()));
        assert(s.take(i)[0] == s[0]);
        assert(s[0] + (concat_all(s.take(i).drop_first()) + s[i] + concat_all(s.skip(i + 1)))
            =~= (s[0] + concat_all(s.take(i).drop_first())) + s[i] + concat_all(s.skip(i + 1)));
    }
}

/// Membership in a concatenation is membership in one of the pieces.
pub proof fn lemma_concat_membership<A>(s: Seq<Seq<A>>, x: A)
    ensures
        concat_all(s).contains(x) <==> exists|i: int| 0 <= i < s.len() && s[i].contains(x),
    decreases s.len(),
{
    if s.len() == 0 {
    } else {
        lemma_concat_membership(s.drop_first(), x);
        assert(concat_all(s) == s[0] + concat_all(s.drop_first()));
        if concat_all(s).contains(x) {
            let j = choose|j: int| 0 <= j < concat_all(s).len() && concat_all(s)[j] == x;
            if j < s[0].len() {
                assert(s[0].contains(x));
            } else {
                assert(concat_all(s.drop_first())[j - s[0].len()] == x);
                assert(concat_all(s.drop_first()).contains(x));
                let i = choose|i: int| 0 <= i < s.drop_first().len() && s.drop_first()[i].contains(
                    x,
                );
                assert(s[i + 1].contains(x));
            }
        }
        if exists|i: int| 0 <= i < s.len() && s[i].contains(x) {
            let i = choose|i: int| 0 <= i < s.len() && s[i].contains(x);
            if i == 0 {
                let j = choose|j: int| 0 <= j < s[0].len() && s[0][j] == x;
                assert(concat_all(s)[j] == x);
            } else {
                assert(s.drop_first()[i - 1].contains(x));
                assert(concat_all(s.drop_first()).contains(x));
                let j = choose|j: int|
                    0 <= j < concat_all(s.drop_first()).len() && concat_all(s.drop_first())[j] == x;
                assert(concat_all(s)[j + s[0].len()] == x);
            }
        }
    }
}

/// Construction error: the requested bucket count is not a power of two.
#[derive(Debug, Clone, Copy, PartialEq, Eq, Structural)]
pub enum HashTableError {
    SizeNotPowerOfTwo,
}

/// A fixed-capacity chained hash table.
pub struct HashTable {
    pub table: Vec<Option<Box<Entry>>>,
    pub size: usize,
    pub mask: usize,
}

impl HashTable {
    /// The bucket chain at slot `i`, as record views in chain order.
    pub open spec fn bucket(self, i: int) -> Seq<EntryView> {
        chain_view(self.table@[i])
    }

    /// All bucket chains.
    pub open spec fn buckets(self) -> Seq<Seq<EntryView>> {
        Seq::new(self.table@.len(), |i: int| chain_view(self.table@[i]))
    }

    /// Every stored record, bucket by bucket.
    pub open spec fn entries(self) -> Seq<EntryView> {
        concat_all(self.buckets())
    }

    pub open spec fn spec_size(self) -> int {
        self.size as int
    }

    pub open spec fn spec_mask(self) -> u64 {
        self.mask as u64
    }

    pub open spec fn spec_capacity(self) -> int {
        self.table@.len() as int
    }

    /// The bucket slot that `code` selects.
    pub open spec fn bucket_index(self, code: u64) -> int {
        (code & self.spec_mask()) as int
    }

    /// Well-formed: the bucket count is the power of two `mask + 1`, the
    /// size counts the stored records, and every stored record sits in
    /// the bucket its code selects.
    pub open spec fn wf(self) -> bool {
        &&& self.table@.len() == self.mask + 1
        &&& self.table@.len() <= usize::MAX
        &&& is_pow2(self.table@.len() as u64)
        &&& self.size == self.entries().len()
        &&& forall|i: int, j: int|
            0 <= i < self.table@.len() && 0 <= j < self.bucket(i).len() ==> self.bucket_index(
                (#[trigger] self.bucket(i)[j]).code,
            ) == i
    }

    /// Creates a table of `n` buckets; fails unless `n` is a power of two.
    pub fn new(n: usize) -> (r: Result<HashTable, HashTableError>)
        ensures
            r is Ok <==> is_pow2(n as u64),
            match r {
                Ok(t) => {
                    &&& t.wf()
                    &&& t.spec_capacity() == n
                    &&& t.spec_mask() == n - 1
                    &&& t.spec_size() == 0
                    &&& t.entries() == Seq::<EntryView>::empty()
                },
                Err(e) => e == HashTableError::SizeNotPowerOfTwo,
            },
    {
        if n == 0 || ((n as u64) & ((n as u64) - 1)) != 0 {
            return Err(HashTableError::SizeNotPowerOfTwo);
        }
        let table = empty_buckets(n);
        let t = HashTable { table, size: 0, mask: n - 1 };
        proof {
            lemma_concat_all_empty(t.buckets());
            assert(t.entries() =~= Seq::<EntryView>::empty());
        }
        Ok(t)
    }

    /// Prepends the record to the bucket its code selects and counts it;
    /// duplicate keys are the caller's concern.
    pub fn insert(&mut self, entry: Entry)
        requires
            old(self).wf(),
            old(self).spec_size() < usize::MAX,
        ensures
            final(self).wf(),
            final(self).spec_mask() == old(self).spec_mask(),
            final(self).spec_capacity() == old(self).spec_capacity(),
            final(self).spec_size() == old(self).spec_size() + 1,
            final(self).buckets() == old(self).buckets().update(
                old(self).bucket_index(entry@.code),
                seq![entry@] + old(self).bucket(old(self).bucket_index(entry@.code)),
            ),
            final(self).entries().to_multiset() == old(self).entries().to_multiset().insert(
                entry@,
            ),
    {
        let mut entry = entry;
        let ghost old_self = *old(self);
        let ghost b = old(self).bucket_index(entry@.code);
        proof {
            lemma_and_mask_le(entry.node.code, self.mask as u64);
        }
        let pos = (entry.node.code & (self.mask as u64)) as usize;
        let head = self.table.remove(pos);
        entry.node.next = head;
        self.table.insert(pos, Some(Box::new(entry)));
        self.size = self.size + 1;
        proof {
            assert(self.table@ =~= old_self.table@.update(b, self.table@[b]));
            assert(self.bucket(b) =~= seq![entry@] + old_self.bucket(b));
            assert(self.buckets() =~= old_self.buckets().update(
                b,
                seq![entry@] + old_self.bucket(b),
            ));
            lemma_concat_split(old_self.buckets(), b);
            lemma_concat_split(self.buckets(), b);
            assert(self.buckets().take(b) =~= old_self.buckets().take(b));
            assert(self.buckets().skip(b + 1) =~= old_self.buckets().skip(b + 1));
            let pre = concat_all(old_self.buckets().take(b));
            let post = concat_all(old_self.buckets().skip(b + 1));
            assert(self.entries() == pre + (seq![entry@] + old_self.bucket(b)) + post);
            assert(old_self.entries() == pre + old_self.bucket(b) + post);
            assert(self.entries().len() == old_self.entries().len() + 1);
            lemma_concat_ms3(pre, seq![entry@] + old_self.bucket(b), post);
            lemma_concat_ms3(pre, old_self.bucket(b), post);
            lemma_multiset_commutative(seq![entry@], old_self.bucket(b));
            assert(seq![entry@].to_multiset() =~= Multiset::empty().insert(entry@)) by {
                assert(seq![entry@].drop_first() =~= Seq::<EntryView>::empty());
            }
            assert(self.entries().to_multiset() =~= old_self.entries().to_multiset().insert(
                entry@,
            ));
            assert forall|i: int, j: int|
                0 <= i < self.table@.len() && 0 <= j < self.bucket(i).len() implies self
                .bucket_index((self.bucket(i)[j]).code) == i by {
                if i == b {
                    if j == 0 {
                    } else {
                        assert(self.bucket(b)[j] == old_self.bucket(b)[j - 1]);
                    }
                } else {
                    assert(self.bucket(i) == old_self.bucket(i));
                }
            }
        }
    }

    /// Finds the first record in the probe's bucket whose code and key
    /// both agree with the probe; a miss means no stored record matches.
    pub fn lookup(&self, node: &Entry) -> (r: Option<&Entry>)
        requires
            self.wf(),
        ensures
            match r {
                Some(e) => {
                    &&& first_match(
                        self.bucket(self.bucket_index(node@.code)),
                        node@.code,
                        node@.key,
                    ) == Some(e@)
                    &&& self.entries().contains(e@)
                    &&& entry_matches(e@, node@.code, node@.key)
                },
                None => !has_match(self.entries(), node@.code, node@.key),
            },
            r is Some <==> has_match(self.entries(), node@.code, node@.key),
    {
        if self.table.is_empty() {
            return None;
        }
        proof {
            lemma_and_mask_le(node.node.code, self.mask as u64);
        }
        let pos = (node.node.code & (self.mask as u64)) as usize;
        let r = chain_find(&self.table[pos], node.node.code, &node.key);
        proof {
            let b = self.bucket_index(node@.code);
            lemma_first_match(self.bucket(b), node@.code, node@.key);
            match r {
                Some(e) => {
                    self.lemma_bucket_entry_global(b, e@);
                },
                None => {
                    self.lemma_no_match_global(node@.code, node@.key);
                },
            }
        }
        r
    }

    /// Finds the first record matching the probe and replaces its value
    /// with the probe's value; reports whether a record was found.
    pub fn lookup_mut(&mut self, node: &Entry) -> (found: bool)
        requires
            old(self).wf(),
        ensures
            final(self).wf(),
            final(self).spec_mask() == old(self).spec_mask(),
            final(self).spec_capacity() == old(self).spec_capacity(),
            final(self).spec_size() == old(self).spec_size(),
            found <==> has_match(old(self).entries(), node@.code, node@.key),
            match first_match(
                old(self).bucket(old(self).bucket_index(node@.code)),
                node@.code,
                node@.key,
            ) {
                Some(e) => final(self).entries().to_multiset() == old(
                    self,
                ).entries().to_multiset().remove(e).insert(
                    EntryView { code: e.code, key: e.key, value: node@.value },
                ),
                None => final(self).buckets() == old(self).buckets() && final(self).entries()
                    == old(self).entries(),
            },
    {
        let ghost old_self = *old(self);
        if self.table.is_empty() {
            proof {
                assert(false);
            }
            return false;
        }
        proof {
            lemma_and_mask_le(node.node.code, self.mask as u64);
        }
        let pos = (node.node.code & (self.mask as u64)) as usize;
        let ghost b = pos as int;
        let value = crate::entry::clone_opt_bytes(&node.value);
        let head = self.table.remove(pos);
        let (new_head, found) = chain_update(head, node.node.code, &node.key, value);
        self.table.insert(pos, new_head);
        proof {
            let code = node@.code;
            let key = node@.key;
            let v = node@.value;
            lemma_first_match(old_self.bucket(b), code, key);
            lemma_update_first_match(old_self.bucket(b), code, key, v);
            assert(self.table@ =~= old_self.table@.update(b, self.table@[b]));
            assert(self.bucket(b) == update_first_match(old_self.bucket(b), code, key, v));
            assert(self.buckets() =~= old_self.buckets().update(b, self.bucket(b)));
            lemma_concat_split(old_self.buckets(), b);
            lemma_concat_split(self.buckets(), b);
            assert(self.buckets().take(b) =~= old_self.buckets().take(b));
            assert(self.buckets().skip(b + 1) =~= old_self.buckets().skip(b + 1));
            let pre = concat_all(old_self.buckets().take(b));
            let post = concat_all(old_self.buckets().skip(b + 1));
            assert(self.entries() == pre + self.bucket(b) + post);
            assert(old_self.entries() == pre + old_self.bucket(b) + post);
            assert(self.entries().len() == old_self.entries().len());
            lemma_concat_ms3(pre, self.bucket(b), post);
            lemma_concat_ms3(pre, old_self.bucket(b), post);
            match first_match(old_self.bucket(b), code, key) {
                Some(e) => {
                    broadcast use vstd::seq_lib::group_to_multiset_ensures;

                    let e2 = EntryView { code: e.code, key: e.key, value: v };
                    assert(self.bucket(b).to_multiset() == old_self.bucket(
                        b,
                    ).to_multiset().remove(e).insert(e2));
                    assert(self.entries().to_multiset() =~= old_self.entries().to_multiset().remove(
                        e,
                    ).insert(e2));
                },
                None => {
                    assert(self.bucket(b) == old_self.bucket(b));
                    assert(self.buckets() =~= old_self.buckets());
                    assert(self.entries() == old_self.entries());
                },
            }
            assert forall|i: int, j: int|
                0 <= i < self.table@.len() && 0 <= j < self.bucket(i).len() implies self
                .bucket_index((self.bucket(i)[j]).code) == i by {
                if i == b {
                    assert(self.bucket(b)[j].code == old_self.bucket(b)[j].code);
                } else {
                    assert(self.bucket(i) == old_self.bucket(i));
                }
            }
            // found <==> has_match over all entries
            if found {
                let e = first_match(old_self.bucket(b), code, key)->Some_0;
                old_self.lemma_bucket_entry_global(b, e);
                let k = choose|k: int|
                    0 <= k < old_self.entries().len() && old_self.entries()[k] == e;
                assert(entry_matches(old_self.entries()[k], code, key));
            } else {
                old_self.lemma_no_match_global(code, key);
            }
        }
        found
    }

    /// Unlinks and returns the first record matching the probe; its chain
    /// link is cleared.  The size drops by exactly one on a hit.
    pub fn detach(&mut self, from: &Entry) -> (r: Option<Box<Entry>>)
        requires
            old(self).wf(),
        ensures
            final(self).wf(),
            final(self).spec_mask() == old(self).spec_mask(),
            final(self).spec_capacity() == old(self).spec_capacity(),
            r is Some <==> has_match(old(self).entries(), from@.code, from@.key),
            match r {
                Some(e) => {
                    &&& first_match(
                        old(self).bucket(old(self).bucket_index(from@.code)),
                        from@.code,
                        from@.key,
                    ) == Some(e@)
                    &&& entry_matches(e@, from@.code, from@.key)
                    &&& old(self).entries().to_multiset().count(e@) > 0
                    &&& final(self).entries().to_multiset() == old(
                        self,
                    ).entries().to_multiset().remove(e@)
                    &&& final(self).spec_size() == old(self).spec_size() - 1
                    &&& e.node.next is None
                },
                None => final(self).buckets() == old(self).buckets() && final(self).entries()
                    == old(self).entries() && final(self).spec_size() == old(self).spec_size(),
            },
    {
        let ghost old_self = *old(self);
        if self.table.is_empty() {
            proof {
                assert(false);
            }
            return None;
        }
        proof {
            lemma_and_mask_le(from.node.code, self.mask as u64);
        }
        let pos = (from.node.code & (self.mask as u64)) as usize;
        let ghost b = pos as int;
        let head = self.table.remove(pos);
        let (new_head, removed) = chain_remove(head, from.node.code, &from.key);
        self.table.insert(pos, new_head);
        proof {
            let code = from@.code;
            let key = from@.key;
            lemma_first_match(old_self.bucket(b), code, key);
            lemma_remove_first_match(old_self.bucket(b), code, key);
            assert(self.table@ =~= old_self.table@.update(b, self.table@[b]));
        }
        match removed {
            Some(e) => {
                proof {
                    broadcast use vstd::seq_lib::group_to_multiset_ensures;

                    let code = from@.code;
                    let key = from@.key;
                    assert(old_self.bucket(b).contains(e@));
                    old_self.lemma_bucket_entry_global(b, e@);
                    let k = choose|k: int|
                        0 <= k < old_self.entries().len() && old_self.entries()[k] == e@;
                    assert(entry_matches(old_self.entries()[k], code, key));
                    assert(old_self.entries().len() > 0);
                }
                self.size = self.size - 1;
                proof {
                    let code = from@.code;
                    let key = from@.key;
                    assert(self.bucket(b) == remove_first_match(old_self.bucket(b), code, key));
                    assert(self.buckets() =~= old_self.buckets().update(b, self.bucket(b)));
                    lemma_concat_split(old_self.buckets(), b);
                    lemma_concat_split(self.buckets(), b);
                    assert(self.buckets().take(b) =~= old_self.buckets().take(b));
                    assert(self.buckets().skip(b + 1) =~= old_self.buckets().skip(b + 1));
                    let pre = concat_all(old_self.buckets().take(b));
                    let post = concat_all(old_self.buckets().skip(b + 1));
                    assert(self.entries() == pre + self.bucket(b) + post);
                    assert(old_self.entries() == pre + old_self.bucket(b) + post);
                    lemma_concat_ms3(pre, self.bucket(b), post);
                    lemma_concat_ms3(pre, old_self.bucket(b), post);
                    broadcast use vstd::seq_lib::group_to_multiset_ensures;

                    assert(self.entries().to_multiset() =~= old_self.entries().to_multiset().remove(
                        e@,
                    ));
                    assert(self.entries().len() == old_self.entries().len() - 1) by {
                        assert(self.entries().to_multiset().len()
                            == self.entries().len());
                        assert(old_self.entries().to_multiset().len()
                            == old_self.entries().len());
                    }
                    assert forall|i: int, j: int|
                        0 <= i < self.table@.len() && 0 <= j < self.bucket(i).len() implies self
                        .bucket_index((self.bucket(i)[j]).code) == i by {
                        if i == b {
                            lemma_remove_keeps_membership(old_self.bucket(b), code, key, j);
                        } else {
                            assert(self.bucket(i) == old_self.bucket(i));
                        }
                    }
                }
                Some(e)
            },
            None => {
                proof {
                    assert(self.bucket(b) == old_self.bucket(b));
                    assert(self.buckets() =~= old_self.buckets());
                    assert(self.entries() == old_self.entries());
                    old_self.lemma_no_match_global(from@.code, from@.key);
                    assert forall|i: int, j: int|
                        0 <= i < self.table@.len() && 0 <= j < self.bucket(i).len() implies self
                        .bucket_index((self.bucket(i)[j]).code) == i by {
                        assert(self.bucket(i) == old_self.bucket(i));
                    }
                }
                None
            },
        }
    }

    /// Removes and returns some stored record, or nothing when the table
    /// is empty.  Used to migrate records out during a rehash.
    pub fn drain(&mut self) -> (r: Option<Box<Entry>>)
        requires
            old(self).wf(),
        ensures
            final(self).wf(),
            final(self).spec_mask() == old(self).spec_mask(),
            final(self).spec_capacity() == old(self).spec_capacity(),
            r is Some <==> old(self).spec_size() > 0,
            match r {
                Some(e) => {
                    &&& old(self).entries().to_multiset().count(e@) > 0
                    &&& final(self).entries().to_multiset() == old(
                        self,
                    ).entries().to_multiset().remove(e@)
                    &&& final(self).spec_size() == old(self).spec_size() - 1
                },
                None => *final(self) == *old(self),
            },
    {
        let ghost old_self = *old(self);
        let mut i: usize = 0;
        while i < self.table.len()
            invariant
                old_self == *old(self),
                *self == old_self,
                old_self.wf(),
                i <= self.table@.len(),
                forall|j: int| 0 <= j < i ==> old_self.bucket(j).len() == 0,
            decreases self.table@.len() - i,
        {
            let found = self.table[i].is_some();
            if found {
                let ghost b = i as int;
                let head = self.table.remove(i);
                let mut e = match head {
                    Some(e) => e,
                    None => {
                        proof {
                            assert(false);
                        }
                        vstd::pervasive::unreached()
                    },
                };
                let mut rest: Option<Box<Entry>> = None;
                core::mem::swap(&mut e.node.next, &mut rest);
                self.table.insert(i, rest);
                proof {
                    assert(old_self.bucket(b) =~= seq![e@] + chain_view(self.table@[b]));
                    lemma_concat_split(old_self.buckets(), b);
                    assert(old_self.entries() == concat_all(old_self.buckets().take(b))
                        + old_self.bucket(b) + concat_all(old_self.buckets().skip(b + 1)));
                    assert(old_self.entries().len() > 0);
                }
                self.size = self.size - 1;
                proof {
                    broadcast use vstd::seq_lib::group_to_multiset_ensures;

                    assert(old_self.bucket(b) =~= seq![e@] + chain_view(self.table@[b]));
                    assert(self.bucket(b) == old_self.bucket(b).drop_first());
                    assert(self.table@ =~= old_self.table@.update(b, self.table@[b]));
                    assert(self.buckets() =~= old_self.buckets().update(b, self.bucket(b)));
                    lemma_concat_split(old_self.buckets(), b);
                    lemma_concat_split(self.buckets(), b);
                    assert(self.buckets().take(b) =~= old_self.buckets().take(b));
                    assert(self.buckets().skip(b + 1) =~= old_self.buckets().skip(b + 1));
                    let pre = concat_all(old_self.buckets().take(b));
                    let post = concat_all(old_self.buckets().skip(b + 1));
                    assert(self.entries() == pre + self.bucket(b) + post);
                    assert(old_self.entries() == pre + old_self.bucket(b) + post);
                    lemma_concat_ms3(pre, self.bucket(b), post);
                    lemma_concat_ms3(pre, old_self.bucket(b), post);
                    assert(old_self.bucket(b).drop_first() =~= old_self.bucket(b).remove(0));
                    assert(self.bucket(b).to_multiset() == old_self.bucket(b).to_multiset().remove(
                        old_self.bucket(b)[0],
                    ));
                    assert(old_self.bucket(b).contains(old_self.bucket(b)[0]));
                    assert(old_self.bucket(b).to_multiset().count(e@) > 0);
                    assert(self.entries().to_multiset() =~= old_self.entries().to_multiset().remove(
                        e@,
                    ));
                    assert(old_self.entries().to_multiset().count(e@) > 0) by {
                        lemma_concat_membership(old_self.buckets(), e@);
                        assert(old_self.buckets()[b].contains(e@));
                    }
                    assert(self.entries().len() == old_self.entries().len() - 1) by {
                        assert(self.entries().to_multiset().len() == self.entries().len());
                        assert(old_self.entries().to_multiset().len()
                            == old_self.entries().len());
                    }
                    assert forall|ii: int, j: int|
                        0 <= ii < self.table@.len() && 0 <= j < self.bucket(ii).len() implies self
                        .bucket_index((self.bucket(ii)[j]).code) == ii by {
                        if ii == b {
                            assert(self.bucket(b)[j] == old_self.bucket(b)[j + 1]);
                        } else {
                            assert(self.bucket(ii) == old_self.bucket(ii));
                        }
                    }
                }
                return Some(e);
            }
            i = i + 1;
        }
        proof {
            assert forall|j: int| 0 <= j < old_self.buckets().len() implies old_self.buckets()[j]
                =~= Seq::<EntryView>::empty() by {
                assert(old_self.bucket(j).len() == 0);
            }
            lemma_concat_all_empty(old_self.buckets());
            assert(old_self.entries() =~= Seq::<EntryView>::empty());
        }
        None
    }

    pub fn is_empty(&self) -> (r: bool)
        ensures
            r == (self.spec_size() == 0),
    {
        self.size == 0
    }

    pub fn size(&self) -> (r: usize)
        ensures
            r == self.spec_size(),
    {
        self.size
    }

    pub fn mask(&self) -> (r: usize)
        ensures
            r == self.spec_mask(),
    {
        self.mask
    }

    /// Re-dimensions an empty table to `new_size` buckets.
    pub fn resize(&mut self, new_size: usize)
        requires
            old(self).wf(),
            old(self).spec_size() == 0,
            is_pow2(new_size as u64),
        ensures
            final(self).wf(),
            final(self).spec_capacity() == new_size,
            final(self).spec_mask() == new_size - 1,
            final(self).spec_size() == 0,
            final(self).entries() == Seq::<EntryView>::empty(),
    {
        self.table = empty_buckets(new_size);
        self.mask = new_size - 1;
        proof {
            lemma_concat_all_empty(self.buckets());
            assert(self.entries() =~= Seq::<EntryView>::empty());
        }
    }

    /// Any record of a bucket is one of the table's records.
    pub proof fn lemma_bucket_entry_global(self, b: int, e: EntryView)
        requires
            self.wf(),
            0 <= b < self.table@.len(),
            self.bucket(b).contains(e),
        ensures
            self.entries().contains(e),
    {
        lemma_concat_membership(self.buckets(), e);
        assert(self.buckets()[b].contains(e));
    }

    /// A probe matches somewhere in the table exactly when it matches in
    /// the bucket its code selects.
    pub proof fn lemma_match_bucket_iff_global(self, code: u64, key: Seq<u8>)
        requires
            self.wf(),
        ensures
            has_match(self.bucket(self.bucket_index(code)), code, key) <==> has_match(
                self.entries(),
                code,
                key,
            ),
    {
        let b = self.bucket_index(code);
        lemma_and_mask_le(code, self.spec_mask());
        if has_match(self.bucket(b), code, key) {
            let j = choose|j: int|
                0 <= j < self.bucket(b).len() && entry_matches(self.bucket(b)[j], code, key);
            let e = self.bucket(b)[j];
            assert(self.bucket(b).contains(e));
            self.lemma_bucket_entry_global(b, e);
            let k = choose|k: int| 0 <= k < self.entries().len() && self.entries()[k] == e;
            assert(entry_matches(self.entries()[k], code, key));
        }
        if !has_match(self.bucket(b), code, key) {
            self.lemma_no_match_global(code, key);
        }
    }

    /// A probe that misses in its own bucket misses everywhere: a stored
    /// record's code puts it in exactly one bucket.
    pub proof fn lemma_no_match_global(self, code: u64, key: Seq<u8>)
        requires
            self.wf(),
            !has_match(self.bucket(self.bucket_index(code)), code, key),
        ensures
            !has_match(self.entries(), code, key),
    {
        let b = self.bucket_index(code);
        if has_match(self.entries(), code, key) {
            let k = choose|k: int|
                0 <= k < self.entries().len() && entry_matches(self.entries()[k], code, key);
            let e = self.entries()[k];
            assert(self.entries().contains(e));
            lemma_concat_membership(self.buckets(), e);
            let i = choose|i: int| 0 <= i < self.buckets().len() && self.buckets()[i].contains(e);
            let j = choose|j: int| 0 <= j < self.bucket(i).len() && self.bucket(i)[j] == e;
            assert(self.bucket_index(self.bucket(i)[j].code) == i);
            assert(i == b);
            assert(entry_matches(self.bucket(b)[j], code, key));
        }
    }
}

/// A bucket's records keep their place when the first match is removed.
proof fn lemma_remove_keeps_membership(s: Seq<EntryView>, code: u64, key: Seq<u8>, j: int)
    requires
        0 <= j < remove_first_match(s, code, key).len(),
    ensures
        s.contains(remove_first_match(s, code, key)[j]),
    decreases s.len(),
{
    if s.len() == 0 {
    } else if entry_matches(s[0], code, key) {
        assert(remove_first_match(s, code, key)[j] == s[j + 1]);
    } else {
        let r = remove_first_match(s, code, key);
        assert(r == seq![s[0]] + remove_first_match(s.drop_first(), code, key));
        if j == 0 {
            assert(s.contains(s[0]));
        } else {
            lemma_remove_keeps_membership(s.drop_first(), code, key, j - 1);
            let rest = s.drop_first();
            let x = remove_first_match(rest, code, key)[j - 1];
            let k = choose|k: int| 0 <= k < rest.len() && rest[k] == x;
            assert(s[k + 1] == x);
        }
    }
}

/// The multiset of a three-way concatenation is the sum of the parts.
proof fn lemma_concat_ms3(a: Seq<EntryView>, b: Seq<EntryView>, c: Seq<EntryView>)
    ensures
        (a + b + c).to_multiset() == a.to_multiset().add(b.to_multiset()).add(c.to_multiset()),
{
    lemma_multiset_commutative(a + b, c);
    lemma_multiset_commutative(a, b);
}

/// The concatenation of empty sequences is empty.
proof fn lemma_concat_all_empty(s: Seq<Seq<EntryView>>)
    requires
        forall|i: int| 0 <= i < s.len() ==> (#[trigger] s[i]).len() == 0,
    ensures
        concat_all(s).len() == 0,
    decreases s.len(),
{
    if s.len() == 0 {
    } else {
        assert(forall|i: int|
            0 <= i < s.drop_first().len() ==> (#[trigger] s.drop_first()[i]).len() == 0);
        lemma_concat_all_empty(s.drop_first());
    }
}

/// A vector of `n` empty bucket slots.
fn empty_buckets(n: usize) -> (r: Vec<Option<Box<Entry>>>)
    ensures
        r@.len() == n,
        forall|i: int| 0 <= i < n ==> chain_view(#[trigger] r@[i]).len() == 0,
{
    let mut table: Vec<Option<Box<Entry>>> = Vec::new();
    let mut i: usize = 0;
    while i < n
        invariant
            i <= n,
            table@.len() == i,
            forall|j: int| 0 <= j < i ==> table@[j] is None,
        decreases n - i,
    {
        table.push(None);
        i = i + 1;
    }
    table
}

/// Walks the chain and borrows the first record whose code and key both
/// agree with the probe.
fn chain_find<'a>(c: &'a Option<Box<Entry>>, code: u64, key: &Vec<u8>) -> (r: Option<&'a Entry>)
    ensures
        match r {
            Some(e) => first_match(chain_view(*c), code, key@) == Some(e@),
            None => first_match(chain_view(*c), code, key@) is None,
        },
    decreases c,
{
    match c {
        None => None,
        Some(e) => {
            let same_key = bytes_eq(&e.key, key);
            if e.node.code == code && same_key {
                proof {
                    assert(chain_view(*c)[0] == e@);
                }
                Some(&**e)
            } else {
                let r = chain_find(&e.node.next, code, key);
                proof {
                    assert(chain_view(*c).drop_first() =~= chain_view(e.node.next));
                    assert(!entry_matches(chain_view(*c)[0], code, key@));
                }
                r
            }
        },
    }
}

/// Takes the chain apart: returns it with the first matching record
/// unlinked, and that record with its link cleared.
fn chain_remove(c: Option<Box<Entry>>, code: u64, key: &Vec<u8>) -> (r: (
    Option<Box<Entry>>,
    Option<Box<Entry>>,
))
    ensures
        chain_view(r.0) == remove_first_match(chain_view(c), code, key@),
        match r.1 {
            Some(e) => first_match(chain_view(c), code, key@) == Some(e@) && e.node.next is None,
            None => first_match(chain_view(c), code, key@) is None && chain_view(r.0) == chain_view(
                c,
            ),
        },
    decreases c,
{
    match c {
        None => (None, None),
        Some(mut e) => {
            let ghost full = chain_view(Some(e));
            let same_key = bytes_eq(&e.key, key);
            if e.node.code == code && same_key {
                let mut rest: Option<Box<Entry>> = None;
                core::mem::swap(&mut e.node.next, &mut rest);
                proof {
                    assert(full[0] == e@);
                    assert(full.drop_first() =~= chain_view(rest));
                }
                (rest, Some(e))
            } else {
                let mut tail: Option<Box<Entry>> = None;
                core::mem::swap(&mut e.node.next, &mut tail);
                let (new_tail, removed) = chain_remove(tail, code, key);
                let ghost tail_view = chain_view(new_tail);
                e.node.next = new_tail;
                proof {
                    assert(full[0] == e@);
                    assert(!entry_matches(full[0], code, key@));
                    assert(full.drop_first() =~= chain_view(tail));
                    assert(chain_view(Some(e)) =~= seq![e@] + tail_view);
                }
                (Some(e), removed)
            }
        },
    }
}

/// Walks the chain and replaces the value of the first matching record.
fn chain_update(c: Option<Box<Entry>>, code: u64, key: &Vec<u8>, value: Option<Vec<u8>>) -> (r: (
    Option<Box<Entry>>,
    bool,
))
    ensures
        chain_view(r.0) == update_first_match(chain_view(c), code, key@, opt_bytes(value)),
        r.1 == (first_match(chain_view(c), code, key@) is Some),
    decreases c,
{
    match c {
        None => (None, false),
        Some(mut e) => {
            let ghost full = chain_view(Some(e));
            let same_key = bytes_eq(&e.key, key);
            if e.node.code == code && same_key {
                e.value = value;
                proof {
                    assert(full[0].code == e@.code && full[0].key == e@.key);
                    assert(chain_view(Some(e)) =~= seq![e@] + full.drop_first());
                }
                (Some(e), true)
            } else {
                let mut tail: Option<Box<Entry>> = None;
                core::mem::swap(&mut e.node.next, &mut tail);
                let (new_tail, found) = chain_update(tail, code, key, value);
                let ghost tail_view = chain_view(new_tail);
                e.node.next = new_tail;
                proof {
                    assert(!entry_matches(full[0], code, key@));
                    assert(full.drop_first() =~= chain_view(tail));
                    assert(chain_view(Some(e)) =~= seq![e@] + tail_view);
                }
                (Some(e), found)
            }
        },
    }
}

} // verus!
