//! Two-table hash map with progressive rehashing.
//!
//! The map holds a primary table `table1` (always present) and a
//! secondary `table2` that exists only while a rehash is in progress.
//! When the primary table's load factor reaches [`LOAD_FACTOR`], the
//! tables swap: the old table becomes `table2` and a fresh table of twice
//! the capacity becomes `table1`.  Every public operation first performs
//! a bounded amount of migration work — at most [`RESIZING_WORK`] record
//! moves — so a resize never stalls a caller for longer than a constant
//! number of steps.
//!
//! The contracts speak of the map as the multiset of stored records in
//! both tables together; migration rearranges the records but never
//! changes that multiset.

use crate::entry::{Entry, EntryView};
use crate::hashtable::{entry_matches, has_match, lemma_pow2_double, HashTable};
use vstd::multiset::Multiset;
use vstd::prelude::*;

verus! {

broadcast use vstd::seq_lib::group_to_multiset_ensures, vstd::multiset::group_multiset_axioms;

/// Mean chain length at which the primary table doubles.
pub const LOAD_FACTOR: usize = 8;

/// Upper bound on record migrations per operation.
pub const RESIZING_WORK: usize = 128;

/// Bucket count of a fresh map.
pub const INITIAL_CAPACITY: usize = 4;

pub struct ScalableHashMap {
    pub table1: Option<HashTable>,
    pub table2: Option<HashTable>,
}

/// No two stored records share a key, and no record is stored twice.
pub open spec fn unique_keys(ms: Multiset<EntryView>) -> bool {
    &&& forall|e1: EntryView, e2: EntryView|
        #![trigger ms.count(e1), ms.count(e2)]
        ms.count(e1) > 0 && ms.count(e2) > 0 && e1.key == e2.key ==> e1 == e2
    &&& forall|e: EntryView| #[trigger] ms.count(e) <= 1
}

/// Some record of `ms` answers the probe.
pub open spec fn ms_has_match(ms: Multiset<EntryView>, code: u64, key: Seq<u8>) -> bool {
    exists|e: EntryView| #[trigger] ms.count(e) > 0 && entry_matches(e, code, key)
}

/// A sequence has a match exactly when its multiset does.
pub proof fn lemma_has_match_ms(s: Seq<EntryView>, code: u64, key: Seq<u8>)
    ensures
        has_match(s, code, key) <==> ms_has_match(s.to_multiset(), code, key),
{
    if has_match(s, code, key) {
        let i = choose|i: int| 0 <= i < s.len() && entry_matches(s[i], code, key);
        assert(s.contains(s[i]));
        assert(s.to_multiset().count(s[i]) > 0);
    }
    if ms_has_match(s.to_multiset(), code, key) {
        let e = choose|e: EntryView| s.to_multiset().count(e) > 0 && entry_matches(e, code, key);
        assert(s.contains(e));
        let i = choose|i: int| 0 <= i < s.len() && s[i] == e;
        assert(entry_matches(s[i], code, key));
    }
}

impl ScalableHashMap {
    /// The primary table.
    pub open spec fn t1(self) -> HashTable {
        self.table1->Some_0
    }

    /// The secondary table's records, or nothing outside a rehash.
    pub open spec fn t2_ms(self) -> Multiset<EntryView> {
        match self.table2 {
            Some(t) => t.entries().to_multiset(),
            None => Multiset::empty(),
        }
    }

    /// Every stored record, over both tables.
    pub open spec fn entry_ms(self) -> Multiset<EntryView> {
        self.t1().entries().to_multiset().add(self.t2_ms())
    }

    /// The number of stored records.
    pub open spec fn spec_size(self) -> int {
        self.t1().spec_size() + match self.table2 {
            Some(t) => t.spec_size(),
            None => 0,
        }
    }

    /// Well-formed: the primary table is present and well-formed, so is
    /// the secondary while it exists, and the total record count fits.
    pub open spec fn wf(self) -> bool {
        &&& self.table1 is Some
        &&& self.t1().wf()
        &&& match self.table2 {
            Some(t) => t.wf(),
            None => true,
        }
        &&& self.spec_size() <= usize::MAX
    }

    /// Creates an empty map with the default initial capacity.
    pub fn new() -> (r: ScalableHashMap)
        ensures
            r.wf(),
            r.table2 is None,
            r.entry_ms() == Multiset::<EntryView>::empty(),
            r.spec_size() == 0,
            r.t1().spec_capacity() == INITIAL_CAPACITY,
    {
        proof {
            assert(4u64 & 3u64 == 0) by (bit_vector);
        }
        let t = new_table(INITIAL_CAPACITY);
        let r = ScalableHashMap { table1: Some(t), table2: None };
        proof {
            assert(r.entry_ms() =~= Multiset::<EntryView>::empty());
        }
        r
    }

    /// Begins a rehash: the primary table moves to the secondary slot and
    /// a fresh table of twice its capacity takes its place.  The stored
    /// records do not change.
    pub fn start_resizing(&mut self)
        requires
            old(self).wf(),
            old(self).table2 is None,
            2 * old(self).t1().spec_capacity() <= usize::MAX,
        ensures
            final(self).wf(),
            final(self).entry_ms() == old(self).entry_ms(),
            final(self).spec_size() == old(self).spec_size(),
            final(self).table2 is Some,
            final(self).t2_ms() == old(self).t1().entries().to_multiset(),
            final(self).t1().spec_capacity() == 2 * old(self).t1().spec_capacity(),
            final(self).t1().spec_size() == 0,
    {
        let capacity: usize = match &self.table1 {
            Some(t) => (t.mask() + 1) * 2,
            None => INITIAL_CAPACITY,
        };
        proof {
            lemma_pow2_double(old(self).t1().spec_capacity() as u64);
        }
        let old_t1 = self.table1.take();
        self.table2 = old_t1;
        let mut fresh = new_table(capacity);
        fresh.resize(capacity);
        self.table1 = Some(fresh);
        proof {
            assert(self.t1().entries().to_multiset() =~= Multiset::<EntryView>::empty());
            assert(self.entry_ms() =~= old(self).entry_ms());
        }
    }

    /// Migrates up to [`RESIZING_WORK`] records from the secondary table
    /// into the primary one, and retires the secondary table once it is
    /// empty.  With no rehash in progress this is a no-op: the map is
    /// left exactly as it was.
    pub fn help_resizing(&mut self)
        requires
            old(self).wf(),
        ensures
            final(self).wf(),
            final(self).entry_ms() == old(self).entry_ms(),
            final(self).spec_size() == old(self).spec_size(),
            final(self).t1().spec_capacity() == old(self).t1().spec_capacity(),
            final(self).t1().spec_mask() == old(self).t1().spec_mask(),
            old(self).table2 is None ==> *final(self) == *old(self),
            old(self).table2 is Some ==> {
                let t2_size = old(self).table2->Some_0.spec_size();
                &&& (t2_size > RESIZING_WORK ==> final(self).table2 is Some
                    && final(self).table2->Some_0.spec_size() == t2_size - RESIZING_WORK)
                &&& (t2_size <= RESIZING_WORK ==> final(self).table2 is None)
            },
    {
        if self.table2.is_none() {
            return ;
        }
        let mut t2 = match self.table2.take() {
            Some(t) => t,
            None => vstd::pervasive::unreached(),
        };
        let mut t1 = match self.table1.take() {
            Some(t) => t,
            None => vstd::pervasive::unreached(),
        };
        let ghost t1_size0 = t1.spec_size();
        let ghost t2_size0 = t2.spec_size();
        let ghost total_ms = t1.entries().to_multiset().add(t2.entries().to_multiset());
        let mut k: usize = 0;
        while k < RESIZING_WORK && !table_drained(&t2)
            invariant
                t1.wf(),
                t2.wf(),
                k <= RESIZING_WORK,
                k <= t2_size0,
                t1.spec_size() == t1_size0 + k,
                t2.spec_size() == t2_size0 - k,
                t1_size0 + t2_size0 <= usize::MAX,
                t1.entries().to_multiset().add(t2.entries().to_multiset()) == total_ms,
                t1.spec_capacity() == old(self).t1().spec_capacity(),
                t1.spec_mask() == old(self).t1().spec_mask(),
                t2.spec_capacity() == old(self).table2->Some_0.spec_capacity(),
                t2.spec_mask() == old(self).table2->Some_0.spec_mask(),
            decreases RESIZING_WORK - k,
        {
            let e = match t2.drain() {
                Some(e) => e,
                None => vstd::pervasive::unreached(),
            };
            t1.insert(*e);
            proof {
                assert(t1.entries().to_multiset().add(t2.entries().to_multiset())
                    =~= total_ms);
            }
            k = k + 1;
        }
        let retired = t2.is_empty();
        self.table1 = Some(t1);
        if retired {
            self.table2 = None;
        } else {
            self.table2 = Some(t2);
        }
        proof {
            assert(self.entry_ms() =~= total_ms);
            assert(old(self).entry_ms() =~= total_ms);
        }
    }

    /// Probes the primary table first, then the secondary: a record that
    /// has already migrated out of the old table must be in the new one.
    /// A hit is a stored record matching the probe's code and key; a miss
    /// means no stored record matches, at any point of a rehash.
    pub fn lookup(&mut self, key: &Entry) -> (r: Option<&Entry>)
        requires
            old(self).wf(),
        ensures
            final(self).wf(),
            final(self).entry_ms() == old(self).entry_ms(),
            final(self).spec_size() == old(self).spec_size(),
            final(self).t1().spec_capacity() == old(self).t1().spec_capacity(),
            r is Some <==> ms_has_match(old(self).entry_ms(), key@.code, key@.key),
            match r {
                Some(e) => old(self).entry_ms().count(e@) > 0 && entry_matches(
                    e@,
                    key@.code,
                    key@.key,
                ),
                None => true,
            },
    {
        self.help_resizing();
        let ghost ms1 = self.t1().entries().to_multiset();
        let ghost ms2 = self.t2_ms();
        let t1 = match &self.table1 {
            Some(t) => t,
            None => vstd::pervasive::unreached(),
        };
        let r1 = t1.lookup(key);
        proof {
            crate::hashtable::lemma_first_match(
                self.t1().bucket(self.t1().bucket_index(key@.code)),
                key@.code,
                key@.key,
            );
            lemma_has_match_ms(self.t1().entries(), key@.code, key@.key);
        }
        match r1 {
            Some(e) => {
                proof {
                    assert(self.t1().entries().contains(e@));
                    assert(self.entry_ms().count(e@) > 0);
                }
                Some(e)
            },
            None => {
                match &self.table2 {
                    Some(t2) => {
                        let r2 = t2.lookup(key);
                        proof {
                            lemma_has_match_ms(t2.entries(), key@.code, key@.key);
                            match r2 {
                                Some(e) => {
                                    assert(t2.entries().contains(e@));
                                    assert(self.entry_ms().count(e@) > 0);
                                },
                                None => {
                                    if ms_has_match(self.entry_ms(), key@.code, key@.key) {
                                        let e = choose|e: EntryView|
                                            self.entry_ms().count(e) > 0 && entry_matches(
                                                e,
                                                key@.code,
                                                key@.key,
                                            );
                                        assert(ms1.count(e) > 0 || ms2.count(e) > 0);
                                    }
                                },
                            }
                        }
                        r2
                    },
                    None => {
                        proof {
                            if ms_has_match(self.entry_ms(), key@.code, key@.key) {
                                let e = choose|e: EntryView|
                                    self.entry_ms().count(e) > 0 && entry_matches(
                                        e,
                                        key@.code,
                                        key@.key,
                                    );
                                assert(ms1.count(e) > 0);
                            }
                        }
                        None
                    },
                }
            },
        }
    }

    /// Probes both tables and replaces the value of the record matching
    /// the probe's code and key with the probe's value; reports whether
    /// such a record was found.
    pub fn lookup_mut(&mut self, key: &Entry) -> (found: bool)
        requires
            old(self).wf(),
        ensures
            final(self).wf(),
            final(self).spec_size() == old(self).spec_size(),
            final(self).t1().spec_capacity() == old(self).t1().spec_capacity(),
            found <==> ms_has_match(old(self).entry_ms(), key@.code, key@.key),
            found ==> exists|e: EntryView|
                old(self).entry_ms().count(e) > 0 && entry_matches(e, key@.code, key@.key)
                    && final(self).entry_ms() == old(self).entry_ms().remove(e).insert(
                    EntryView { code: e.code, key: e.key, value: key@.value },
                ),
            !found ==> final(self).entry_ms() == old(self).entry_ms(),
    {
        self.help_resizing();
        let ghost mid = *self;
        let ghost ms1 = self.t1().entries().to_multiset();
        let ghost ms2 = self.t2_ms();
        let mut t1 = match self.table1.take() {
            Some(t) => t,
            None => vstd::pervasive::unreached(),
        };
        let found1 = t1.lookup_mut(key);
        self.table1 = Some(t1);
        proof {
            crate::hashtable::lemma_and_mask_le(key@.code, mid.t1().spec_mask());
            crate::hashtable::lemma_first_match(
                mid.t1().bucket(mid.t1().bucket_index(key@.code)),
                key@.code,
                key@.key,
            );
            mid.t1().lemma_match_bucket_iff_global(key@.code, key@.key);
            lemma_has_match_ms(mid.t1().entries(), key@.code, key@.key);
        }
        if found1 {
            proof {
                let b = mid.t1().bucket_index(key@.code);
                crate::hashtable::lemma_and_mask_le(key@.code, mid.t1().spec_mask());
                let e = crate::hashtable::first_match(
                    mid.t1().bucket(b),
                    key@.code,
                    key@.key,
                )->Some_0;
                let e2 = EntryView { code: e.code, key: e.key, value: key@.value };
                assert(mid.t1().bucket(b).contains(e));
                mid.t1().lemma_bucket_entry_global(b, e);
                assert(mid.t1().entries().to_multiset().count(e) > 0);
                assert(old(self).entry_ms().count(e) > 0);
                assert(self.entry_ms() =~= old(self).entry_ms().remove(e).insert(e2));
            }
            return true;
        }
        match self.table2.take() {
            Some(mut t2) => {
                let ghost t2_pre = t2;
                let found2 = t2.lookup_mut(key);
                self.table2 = Some(t2);
                proof {
                    crate::hashtable::lemma_and_mask_le(key@.code, t2_pre.spec_mask());
                    crate::hashtable::lemma_first_match(
                        t2_pre.bucket(t2_pre.bucket_index(key@.code)),
                        key@.code,
                        key@.key,
                    );
                    t2_pre.lemma_match_bucket_iff_global(key@.code, key@.key);
                    lemma_has_match_ms(t2_pre.entries(), key@.code, key@.key);
                    if found2 {
                        let b2 = t2_pre.bucket_index(key@.code);
                        crate::hashtable::lemma_and_mask_le(key@.code, t2_pre.spec_mask());
                        let e = crate::hashtable::first_match(
                            t2_pre.bucket(b2),
                            key@.code,
                            key@.key,
                        )->Some_0;
                        let e2 = EntryView { code: e.code, key: e.key, value: key@.value };
                        assert(t2_pre.bucket(b2).contains(e));
                        t2_pre.lemma_bucket_entry_global(b2, e);
                        assert(t2_pre.entries().to_multiset().count(e) > 0);
                        assert(old(self).entry_ms().count(e) > 0);
                        assert(self.entry_ms() =~= old(self).entry_ms().remove(e).insert(e2));
                    } else {
                        assert(self.entry_ms() =~= old(self).entry_ms());
                        if ms_has_match(old(self).entry_ms(), key@.code, key@.key) {
                            let e = choose|e: EntryView|
                                old(self).entry_ms().count(e) > 0 && entry_matches(
                                    e,
                                    key@.code,
                                    key@.key,
                                );
                            assert(ms1.count(e) > 0 || ms2.count(e) > 0);
                        }
                    }
                }
                found2
            },
            None => {
                self.table2 = None;
                proof {
                    assert(self.entry_ms() =~= old(self).entry_ms());
                    if ms_has_match(old(self).entry_ms(), key@.code, key@.key) {
                        let e = choose|e: EntryView|
                            old(self).entry_ms().count(e) > 0 && entry_matches(
                                e,
                                key@.code,
                                key@.key,
                            );
                        assert(ms1.count(e) > 0);
                    }
                }
                false
            },
        }
    }

    /// Performs a bounded slice of migration work, stores the record
    /// in the primary table — duplicate keys are the caller's concern —
    /// then starts a rehash if the load factor has been reached.
    pub fn insert(&mut self, node: Entry)
        requires
            old(self).wf(),
            old(self).spec_size() < usize::MAX,
        ensures
            final(self).wf(),
            final(self).entry_ms() == old(self).entry_ms().insert(node@),
            final(self).spec_size() == old(self).spec_size() + 1,
            old(self).table2 is None && old(self).spec_size() + 1 >= LOAD_FACTOR * old(
                self,
            ).t1().spec_capacity() ==> final(self).t1().spec_capacity() == 2 * old(
                self,
            ).t1().spec_capacity() && final(self).table2 is Some,
            old(self).table2 is None && old(self).spec_size() + 1 < LOAD_FACTOR * old(
                self,
            ).t1().spec_capacity() ==> final(self).table2 is None && final(self).t1().spec_capacity()
                == old(self).t1().spec_capacity(),
    {
        let ghost node_view = node@;
        self.help_resizing();
        let mut t1 = match self.table1.take() {
            Some(t) => t,
            None => vstd::pervasive::unreached(),
        };
        t1.insert(node);
        self.table1 = Some(t1);
        proof {
            assert(self.entry_ms() =~= old(self).entry_ms().insert(node_view));
        }
        if self.table2.is_none() {
            let t1_ref = match &self.table1 {
                Some(t) => t,
                None => vstd::pervasive::unreached(),
            };
            let length = t1_ref.size();
            let capacity = t1_ref.mask() + 1;
            let loaded = length / capacity;
            proof {
                assert(capacity > 0);
                vstd::arithmetic::div_mod::lemma_fundamental_div_mod(
                    length as int,
                    capacity as int,
                );
                vstd::arithmetic::div_mod::lemma_mod_division_less_than_divisor(
                    length as int,
                    capacity as int,
                );
            }
            if loaded >= LOAD_FACTOR {
                proof {
                    assert(length >= LOAD_FACTOR * capacity) by (nonlinear_arith)
                        requires
                            capacity > 0,
                            length == capacity * ((length as int) / (capacity as int)) + (
                            length as int) % (capacity as int),
                            (length as int) % (capacity as int) >= 0,
                            (length as int) / (capacity as int) >= LOAD_FACTOR,
                    ;
                    assert(2 * capacity <= usize::MAX);
                }
                self.start_resizing();
            } else {
                proof {
                    assert(length < LOAD_FACTOR * capacity) by (nonlinear_arith)
                        requires
                            capacity > 0,
                            length == capacity * ((length as int) / (capacity as int)) + (
                            length as int) % (capacity as int),
                            (length as int) % (capacity as int) < capacity,
                            (length as int) / (capacity as int) < LOAD_FACTOR,
                    ;
                }
            }
        }
    }

    /// Takes a table out of its slot, detaches the first matching record
    /// from it, and puts it back.
    fn pop_from_table(table: &mut Option<HashTable>, node: &Entry) -> (r: Option<Box<Entry>>)
        requires
            match *old(table) {
                Some(t) => t.wf(),
                None => true,
            },
        ensures
            (*final(table)) is Some <==> (*old(table)) is Some,
            match *old(table) {
                Some(t) => {
                    let t_after = (*final(table))->Some_0;
                    &&& t_after.wf()
                    &&& t_after.spec_capacity() == t.spec_capacity()
                    &&& t_after.spec_mask() == t.spec_mask()
                    &&& (r is Some <==> has_match(t.entries(), node@.code, node@.key))
                    &&& match r {
                        Some(e) => {
                            &&& entry_matches(e@, node@.code, node@.key)
                            &&& t.entries().to_multiset().count(e@) > 0
                            &&& t_after.entries().to_multiset() == t.entries().to_multiset().remove(
                                e@,
                            )
                            &&& t_after.spec_size() == t.spec_size() - 1
                        },
                        None => t_after.entries() == t.entries() && t_after.spec_size()
                            == t.spec_size(),
                    }
                },
                None => r is None && (*final(table)) is None,
            },
    {
        match table.take() {
            Some(mut t) => {
                let r = t.detach(node);
                *table = Some(t);
                r
            },
            None => {
                *table = None;
                None
            },
        }
    }

    /// Unlinks and returns the stored record matching the probe's code
    /// and key, searching the primary table first; a miss returns nothing
    /// and changes no record.
    pub fn pop(&mut self, node: &Entry) -> (r: Option<Box<Entry>>)
        requires
            old(self).wf(),
        ensures
            final(self).wf(),
            final(self).t1().spec_capacity() == old(self).t1().spec_capacity(),
            r is Some <==> ms_has_match(old(self).entry_ms(), node@.code, node@.key),
            match r {
                Some(e) => {
                    &&& entry_matches(e@, node@.code, node@.key)
                    &&& old(self).entry_ms().count(e@) > 0
                    &&& final(self).entry_ms() == old(self).entry_ms().remove(e@)
                    &&& final(self).spec_size() == old(self).spec_size() - 1
                },
                None => final(self).entry_ms() == old(self).entry_ms() && final(self).spec_size()
                    == old(self).spec_size(),
            },
    {
        self.help_resizing();
        let ghost mid = *self;
        let ghost ms1 = self.t1().entries().to_multiset();
        let ghost ms2 = self.t2_ms();
        let mut table1 = self.table1.take();
        let found = Self::pop_from_table(&mut table1, node);
        self.table1 = table1;
        proof {
            lemma_has_match_ms(mid.t1().entries(), node@.code, node@.key);
        }
        match found {
            Some(e) => {
                proof {
                    assert(self.entry_ms() =~= old(self).entry_ms().remove(e@));
                }
                Some(e)
            },
            None => {
                let mut table2 = self.table2.take();
                let ghost t2_pre = table2;
                let found2 = Self::pop_from_table(&mut table2, node);
                self.table2 = table2;
                proof {
                    match t2_pre {
                        Some(t) => {
                            lemma_has_match_ms(t.entries(), node@.code, node@.key);
                        },
                        None => {},
                    }
                    match &found2 {
                        Some(e) => {
                            assert(self.entry_ms() =~= old(self).entry_ms().remove(e@));
                        },
                        None => {
                            assert(self.t1().entries() == mid.t1().entries());
                            assert(self.t2_ms() == mid.t2_ms());
                            assert(self.entry_ms() =~= old(self).entry_ms());
                            if ms_has_match(old(self).entry_ms(), node@.code, node@.key) {
                                let e = choose|e: EntryView|
                                    old(self).entry_ms().count(e) > 0 && entry_matches(
                                        e,
                                        node@.code,
                                        node@.key,
                                    );
                                assert(ms1.count(e) > 0 || ms2.count(e) > 0);
                            }
                        },
                    }
                }
                found2
            },
        }
    }

    /// The number of stored records, over both tables.
    pub fn size(&self) -> (r: usize)
        requires
            self.wf(),
        ensures
            r == self.spec_size(),
    {
        let size1 = match &self.table1 {
            Some(t) => t.size(),
            None => 0,
        };
        let size2 = match &self.table2 {
            Some(t) => t.size(),
            None => 0,
        };
        size1 + size2
    }

    /// Empties the map back to a fresh primary table.
    pub fn destroy(&mut self)
        ensures
            final(self).wf(),
            final(self).entry_ms() == Multiset::<EntryView>::empty(),
            final(self).spec_size() == 0,
            final(self).table2 is None,
    {
        proof {
            assert(4u64 & 3u64 == 0) by (bit_vector);
        }
        let t = new_table(INITIAL_CAPACITY);
        self.table1 = Some(t);
        self.table2 = None;
        proof {
            assert(self.entry_ms() =~= Multiset::<EntryView>::empty());
        }
    }
}

/// Prepending records one after another to what a table holds.
pub open spec fn ms_add_seq(ms: Multiset<EntryView>, s: Seq<EntryView>) -> Multiset<EntryView>
    decreases s.len(),
{
    if s.len() == 0 {
        ms
    } else {
        ms_add_seq(ms.insert(s[0]), s.drop_first())
    }
}

/// After any sequence of inserts, a probe finds a record exactly when
/// one of the inserted records, or one already stored, answers it:
/// every inserted key is findable and no uninserted key is.
pub proof fn lemma_inserted_keys_findable(
    before: Multiset<EntryView>,
    inserted: Seq<EntryView>,
    code: u64,
    key: Seq<u8>,
)
    ensures
        ms_has_match(ms_add_seq(before, inserted), code, key) <==> (ms_has_match(before, code, key)
            || exists|i: int| 0 <= i < inserted.len() && entry_matches(
            #[trigger] inserted[i],
            code,
            key,
        )),
    decreases inserted.len(),
{
    broadcast use vstd::multiset::group_multiset_axioms;

    if inserted.len() == 0 {
    } else {
        let e = inserted[0];
        lemma_inserted_keys_findable(before.insert(e), inserted.drop_first(), code, key);
        assert forall|i: int|
            0 <= i < inserted.drop_first().len() implies inserted.drop_first()[i] == inserted[i
            + 1] by {}
        if ms_has_match(before.insert(e), code, key) {
            let w = choose|w: EntryView|
                before.insert(e).count(w) > 0 && entry_matches(w, code, key);
            if w == e {
                assert(entry_matches(inserted[0], code, key));
            } else {
                assert(before.count(w) > 0);
            }
        }
        if ms_has_match(before, code, key) {
            let w = choose|w: EntryView| before.count(w) > 0 && entry_matches(w, code, key);
            assert(before.insert(e).count(w) > 0);
        }
        if exists|i: int| 0 <= i < inserted.len() && entry_matches(
            #[trigger] inserted[i],
            code,
            key,
        ) {
            let i = choose|i: int|
                0 <= i < inserted.len() && entry_matches(#[trigger] inserted[i], code, key);
            if i == 0 {
                assert(before.insert(e).count(e) > 0);
            } else {
                assert(entry_matches(inserted.drop_first()[i - 1], code, key));
            }
        }
    }
}

/// Once a record is detached from a store without duplicate keys, no
/// probe for its key finds anything: the record is unreachable.
pub proof fn lemma_detached_unreachable(ms: Multiset<EntryView>, e: EntryView)
    requires
        unique_keys(ms),
        ms.count(e) > 0,
    ensures
        !ms_has_match(ms.remove(e), e.code, e.key),
{
    broadcast use vstd::multiset::group_multiset_axioms;

    if ms_has_match(ms.remove(e), e.code, e.key) {
        let w = choose|w: EntryView|
            ms.remove(e).count(w) > 0 && entry_matches(w, e.code, e.key);
        assert(ms.count(w) > 0);
        assert(w == e);
        assert(ms.count(e) <= 1);
    }
}

/// The secondary table has been fully drained.
fn table_drained(t: &HashTable) -> (r: bool)
    ensures
        r == (t.spec_size() == 0),
{
    t.is_empty()
}

/// Builds a table of `n` buckets for a caller that knows `n` is a power
/// of two.
fn new_table(n: usize) -> (r: HashTable)
    requires
        crate::hashtable::is_pow2(n as u64),
    ensures
        r.wf(),
        r.spec_capacity() == n,
        r.spec_mask() == n - 1,
        r.spec_size() == 0,
        r.entries() == Seq::<EntryView>::empty(),
{
    match HashTable::new(n) {
        Ok(t) => t,
        Err(_) => vstd::pervasive::unreached(),
    }
}

} // verus!
