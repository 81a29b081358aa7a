//! An ordered map whose entries carry a reference count beside their value.
use crate::count::Count;
use crate::key_order::{key_equal, key_less, key_lt, lawful_key, lemma_key_order};
use vstd::prelude::*;

verus! {

/// A count could not be raised or lowered any further within its type.
#[derive(Debug)]
pub struct CountSaturatedError;

/// The keys of a sequence of entries, in order.
pub open spec fn entry_keys<K, C, V>(s: Seq<(K, (C, V))>) -> Seq<K> {
    s.map_values(|e: (K, (C, V))| e.0)
}

/// Each key comes strictly before the next: keys ascend and none occurs twice.
pub open spec fn strictly_ascending<K: Ord, C, V>(s: Seq<(K, (C, V))>) -> bool {
    forall|i: int, j: int|
        0 <= i < j < s.len() ==> #[trigger] s[i].0 != #[trigger] s[j].0 && key_lt(s[i].0, s[j].0)
}

/// The map that a sequence of entries with distinct keys stands for.
pub open spec fn entries_map<K, C, V>(s: Seq<(K, (C, V))>) -> Map<K, (C, V)> {
    Map::new(
        |k: K| exists|i: int| 0 <= i < s.len() && s[i].0 == k,
        |k: K| s[choose|i: int| 0 <= i < s.len() && s[i].0 == k].1,
    )
}

/// In a sequence with distinct keys, each entry is what the map holds for its key.
pub proof fn lemma_entries_map_at<K: Ord, C, V>(s: Seq<(K, (C, V))>, i: int)
    requires
        strictly_ascending(s),
        0 <= i < s.len(),
    ensures
        entries_map(s).contains_key(s[i].0),
        entries_map(s)[s[i].0] == s[i].1,
{
    let k = s[i].0;
    assert(exists|j: int| 0 <= j < s.len() && s[j].0 == k);
    let j = choose|j: int| 0 <= j < s.len() && s[j].0 == k;
    if j < i {
        assert(s[j].0 != s[i].0);
    } else if i < j {
        assert(s[i].0 != s[j].0);
    }
}

/// A key that no entry has is not in the map.
pub proof fn lemma_entries_map_absent<K, C, V>(s: Seq<(K, (C, V))>, k: K)
    requires
        forall|i: int| 0 <= i < s.len() ==> s[i].0 != k,
    ensures
        !entries_map(s).contains_key(k),
{
}

/// The map of any sequence of entries has finitely many keys.
pub proof fn lemma_entries_map_finite<K, C, V>(s: Seq<(K, (C, V))>)
    ensures
        entries_map(s).dom().finite(),
{
    let ks = entry_keys(s);
    assert(entries_map(s).dom() =~= ks.to_set()) by {
        assert forall|k: K| entries_map(s).dom().contains(k) implies ks.to_set().contains(k) by {
            let i = choose|i: int| 0 <= i < s.len() && s[i].0 == k;
            assert(ks[i] == k);
        }
        assert forall|k: K| ks.to_set().contains(k) implies entries_map(s).dom().contains(k) by {
            let i = choose|i: int| 0 <= i < ks.len() && ks[i] == k;
            assert(s[i].0 == k);
        }
    }
    vstd::seq_lib::seq_to_set_is_finite(ks);
}

/// The map has as many keys as the sequence has entries.
pub proof fn lemma_entries_map_len<K: Ord, C, V>(s: Seq<(K, (C, V))>)
    requires
        strictly_ascending(s),
    ensures
        entries_map(s).dom().finite(),
        entries_map(s).len() == s.len(),
{
    let ks = entry_keys(s);
    assert(entries_map(s).dom() =~= ks.to_set()) by {
        assert forall|k: K| entries_map(s).dom().contains(k) implies ks.to_set().contains(k) by {
            let i = choose|i: int| 0 <= i < s.len() && s[i].0 == k;
            assert(ks[i] == k);
        }
        assert forall|k: K| ks.to_set().contains(k) implies entries_map(s).dom().contains(k) by {
            let i = choose|i: int| 0 <= i < ks.len() && ks[i] == k;
            assert(s[i].0 == k);
        }
    }
    assert(ks.no_duplicates()) by {
        assert forall|i: int, j: int| 0 <= i < ks.len() && 0 <= j < ks.len() && i != j implies ks[i]
            != ks[j] by {
            if i < j {
                assert(s[i].0 != s[j].0);
            } else {
                assert(s[j].0 != s[i].0);
            }
        }
    }
    ks.unique_seq_to_set();
}

/// Replacing the entry of a key replaces what the map holds for it.
pub proof fn lemma_entries_map_update<K: Ord, C, V>(s: Seq<(K, (C, V))>, i: int, e: (K, (C, V)))
    requires
        strictly_ascending(s),
        0 <= i < s.len(),
        e.0 == s[i].0,
    ensures
        strictly_ascending(s.update(i, e)),
        entries_map(s.update(i, e)) == entries_map(s).insert(e.0, e.1),
{
    let t = s.update(i, e);
    assert forall|a: int, b: int| 0 <= a < b < t.len() implies #[trigger] t[a].0 != #[trigger] t[b].0
        && key_lt(t[a].0, t[b].0) by {
        assert(s[a].0 != s[b].0 && key_lt(s[a].0, s[b].0));
    }
    lemma_entries_map_at(t, i);
    let m1 = entries_map(t);
    let m2 = entries_map(s).insert(e.0, e.1);
    assert forall|k: K| #[trigger] m1.contains_key(k) == m2.contains_key(k) by {
        if k != e.0 {
            if entries_map(s).contains_key(k) {
                let j = choose|j: int| 0 <= j < s.len() && s[j].0 == k;
                assert(t[j].0 == k);
            }
            if m1.contains_key(k) {
                let j = choose|j: int| 0 <= j < t.len() && t[j].0 == k;
                assert(s[j].0 == k);
            }
        }
    }
    assert forall|k: K| m1.contains_key(k) implies #[trigger] m1[k] == m2[k] by {
        if k != e.0 {
            let j = choose|j: int| 0 <= j < t.len() && t[j].0 == k;
            lemma_entries_map_at(t, j);
            lemma_entries_map_at(s, j);
        }
    }
    assert(entries_map(t) =~= entries_map(s).insert(e.0, e.1));
}

/// A key that would stand at `i` in the order is not among the entries.
pub proof fn lemma_key_absent<K: Ord, C, V>(s: Seq<(K, (C, V))>, i: int, k: K)
    requires
        lawful_key::<K>(),
        strictly_ascending(s),
        0 <= i <= s.len(),
        forall|j: int| 0 <= j < i ==> key_lt(#[trigger] s[j].0, k),
        i < s.len() ==> key_lt(k, s[i].0),
    ensures
        forall|j: int| 0 <= j < s.len() ==> s[j].0 != k,
        !entries_map(s).contains_key(k),
{
    lemma_key_order::<K>();
    assert forall|j: int| 0 <= j < s.len() implies s[j].0 != k by {
        if j < i {
            assert(key_lt(s[j].0, k));
        } else {
            assert(key_lt(k, s[i].0));
            if i < j {
                assert(key_lt(s[i].0, s[j].0));
            }
        }
    }
    lemma_entries_map_absent(s, k);
}

/// Placing an entry for a new key where it belongs in the order adds it to the map.
pub proof fn lemma_entries_map_insert<K: Ord, C, V>(s: Seq<(K, (C, V))>, i: int, e: (K, (C, V)))
    requires
        lawful_key::<K>(),
        strictly_ascending(s),
        0 <= i <= s.len(),
        forall|j: int| 0 <= j < i ==> key_lt(#[trigger] s[j].0, e.0),
        i < s.len() ==> key_lt(e.0, s[i].0),
    ensures
        strictly_ascending(s.insert(i, e)),
        !entries_map(s).contains_key(e.0),
        entries_map(s.insert(i, e)) == entries_map(s).insert(e.0, e.1),
{
    lemma_key_order::<K>();
    let t = s.insert(i, e);
    lemma_key_absent(s, i, e.0);
    assert forall|a: int, b: int| 0 <= a < b < t.len() implies #[trigger] t[a].0 != #[trigger] t[b].0
        && key_lt(t[a].0, t[b].0) by {
        if b < i {
            assert(t[a] == s[a] && t[b] == s[b]);
        } else if b == i {
            assert(t[a] == s[a]);
        } else if a == i {
            assert(t[b] == s[b - 1]);
            if b - 1 > i {
                assert(key_lt(s[i].0, s[b - 1].0));
            }
        } else if a < i {
            assert(t[a] == s[a] && t[b] == s[b - 1]);
        } else {
            assert(t[a] == s[a - 1] && t[b] == s[b - 1]);
        }
    }
    lemma_entries_map_at(t, i);
    let m1 = entries_map(t);
    let m2 = entries_map(s).insert(e.0, e.1);
    assert forall|k: K| #[trigger] m1.contains_key(k) == m2.contains_key(k) by {
        if k != e.0 {
            if entries_map(s).contains_key(k) {
                let j = choose|j: int| 0 <= j < s.len() && s[j].0 == k;
                if j < i {
                    assert(t[j].0 == k);
                } else {
                    assert(t[j + 1].0 == k);
                }
            }
            if m1.contains_key(k) {
                let j = choose|j: int| 0 <= j < t.len() && t[j].0 == k;
                if j < i {
                    assert(s[j].0 == k);
                } else {
                    assert(s[j - 1].0 == k);
                }
            }
        }
    }
    assert forall|k: K| m1.contains_key(k) implies #[trigger] m1[k] == m2[k] by {
        if k != e.0 {
            let j = choose|j: int| 0 <= j < t.len() && t[j].0 == k;
            lemma_entries_map_at(t, j);
            if j < i {
                lemma_entries_map_at(s, j);
            } else {
                lemma_entries_map_at(s, j - 1);
            }
        }
    }
    assert(entries_map(t) =~= entries_map(s).insert(e.0, e.1));
}

/// `after` is `before` with the count of `k` moved by `delta` and everything
/// else, the value of `k` aside, as it was.
pub open spec fn count_moved<K, C: Count, V>(
    before: Map<K, (C, V)>,
    after: Map<K, (C, V)>,
    k: K,
    delta: int,
) -> bool {
    &&& after.dom() =~= before.dom()
    &&& after[k].0.value() == before[k].0.value() + delta
    &&& after.remove(k) =~= before.remove(k)
}

/// Raising a count by one and then lowering it by one leaves every count as
/// it was, and every entry but the one of `k` untouched; where the value of `k`
/// is also as it was, the map is the same.
pub proof fn lemma_increment_then_decrement<K, C: Count, V>(
    m0: Map<K, (C, V)>,
    m1: Map<K, (C, V)>,
    m2: Map<K, (C, V)>,
    k: K,
)
    requires
        m0.contains_key(k),
        count_moved(m0, m1, k, 1),
        count_moved(m1, m2, k, -1),
    ensures
        count_moved(m0, m2, k, 0),
        m2[k].1 == m0[k].1 ==> m2 == m0,
{
    C::lemma_value_determines(&m2[k].0, &m0[k].0);
    if m2[k].1 == m0[k].1 {
        assert forall|j: K| #[trigger] m2.contains_key(j) implies m2[j] == m0[j] by {
            if j != k {
                assert(m2.remove(k)[j] == m0.remove(k)[j]);
            }
        }
        assert(m2 =~= m0);
    }
}

/// Inserting a key with a count of one and then lowering its count leaves
/// the key in the map with a count of zero, and the rest of the map as it was;
/// where the value of the key is still the one inserted, the map is the first
/// one with that entry added.
pub proof fn lemma_insert_then_decrement<K, C: Count, V>(
    m0: Map<K, (C, V)>,
    m1: Map<K, (C, V)>,
    m2: Map<K, (C, V)>,
    k: K,
)
    requires
        !m0.contains_key(k),
        m1.dom() == m0.dom().insert(k),
        m1[k].0.value() == 1,
        m1.remove(k) == m0,
        count_moved(m1, m2, k, -1),
    ensures
        m2.dom() == m0.dom().insert(k),
        m2[k].0.value() == 0,
        m2.remove(k) == m0,
        m2[k].1 == m1[k].1 ==> m2 == m0.insert(k, (m2[k].0, m1[k].1)),
{
    assert(m1.contains_key(k));
    assert(m2.remove(k) =~= m0);
    if m2[k].1 == m1[k].1 {
        assert(m2 =~= m0.insert(k, (m2[k].0, m1[k].1)));
    }
}

/// The entries that keys and slots at the same positions make.
pub open spec fn zip_entries<K, C, V>(keys: Seq<K>, slots: Seq<(C, V)>) -> Seq<(K, (C, V))> {
    Seq::new(keys.len(), |i: int| (keys[i], slots[i]))
}

/// Each key comes strictly before the next.
pub open spec fn keys_ascending<K: Ord>(keys: Seq<K>) -> bool {
    forall|i: int, j: int|
        0 <= i < j < keys.len() ==> #[trigger] keys[i] != #[trigger] keys[j] && key_lt(keys[i], keys[j])
}

/// Entries ascend strictly exactly where their keys do.
pub proof fn lemma_zip_ascending<K: Ord, C, V>(keys: Seq<K>, slots: Seq<(C, V)>)
    ensures
        keys_ascending(keys) <==> strictly_ascending(zip_entries(keys, slots)),
{
    let z = zip_entries(keys, slots);
    if keys_ascending(keys) {
        assert forall|i: int, j: int| 0 <= i < j < z.len() implies #[trigger] z[i].0 != #[trigger] z[j].0
            && key_lt(z[i].0, z[j].0) by {
            assert(keys[i] != keys[j] && key_lt(keys[i], keys[j]));
        }
    }
    if strictly_ascending(z) {
        assert forall|i: int, j: int| 0 <= i < j < keys.len() implies #[trigger] keys[i] != #[trigger] keys[j]
            && key_lt(keys[i], keys[j]) by {
            assert(z[i].0 != z[j].0 && key_lt(z[i].0, z[j].0));
        }
    }
}

/// Replacing a slot replaces that entry's count and value.
pub proof fn lemma_zip_update<K, C, V>(keys: Seq<K>, slots: Seq<(C, V)>, i: int, slot: (C, V))
    requires
        keys.len() == slots.len(),
        0 <= i < keys.len(),
    ensures
        zip_entries(keys, slots.update(i, slot)) == zip_entries(keys, slots).update(i, (keys[i], slot)),
{
    assert(zip_entries(keys, slots.update(i, slot)) =~= zip_entries(keys, slots).update(
        i,
        (keys[i], slot),
    ));
}

/// An ordered map from keys to values, each value with a count of references.
///
/// Its view maps each key to the pair of its count and its value. Every method
/// can be called with any key type; what the methods promise of the view holds
/// where the key type is lawful (`lawful_key`): its `Ord` a total order and its
/// `==` equality of values.
#[derive(Debug)]
pub struct RcBTreeMap<K, C, V> where K: Ord, C: Count {
    keys: Vec<K>,
    slots: Vec<(C, V)>,
}

impl<K: Ord, C: Count, V> View for RcBTreeMap<K, C, V> {
    type V = Map<K, (C, V)>;

    closed spec fn view(&self) -> Map<K, (C, V)> {
        entries_map(self.entries())
    }
}

impl<K: Ord, C: Count, V> RcBTreeMap<K, C, V> {
    /// The entries, in key order.
    closed spec fn entries(&self) -> Seq<(K, (C, V))> {
        zip_entries(self.keys@, self.slots@)
    }

    /// Every key has its slot, and on a lawful key type the keys ascend strictly.
    #[verifier::type_invariant]
    closed spec fn wf(&self) -> bool {
        &&& self.keys@.len() == self.slots@.len()
        &&& lawful_key::<K>() ==> keys_ascending(self.keys@)
    }

    /// What the invariant gives of the entries on a lawful key type.
    proof fn lemma_wf(&self)
        requires
            self.wf(),
            lawful_key::<K>(),
        ensures
            strictly_ascending(self.entries()),
            self.entries().len() == self.keys@.len(),
            self@.dom().finite(),
            self@.len() == self.keys@.len(),
    {
        lemma_zip_ascending(self.keys@, self.slots@);
        lemma_entries_map_len(self.entries());
    }

    /// An empty map.
    pub fn new() -> (r: Self)
        ensures
            r@ == Map::<K, (C, V)>::empty(),
            r@.dom().finite(),
    {
        let r = RcBTreeMap { keys: Vec::new(), slots: Vec::new() };
        assert(r@ =~= Map::<K, (C, V)>::empty());
        r
    }

    /// The number of keys in the map.
    pub fn len(&self) -> (r: usize)
        ensures
            self@.dom().finite(),
            lawful_key::<K>() ==> r == self@.len(),
    {
        proof {
            use_type_invariant(self);
            lemma_entries_map_finite(self.entries());
            if lawful_key::<K>() {
                self.lemma_wf();
            }
        }
        self.keys.len()
    }

    /// Raises the count of `k` by one, or inserts `k` with a count of one and the
    /// value that `v` makes from the key; gives access to the value either way.
    ///
    /// Fails, changing nothing, where the count of `k` is already the largest
    /// its type holds.
    pub fn increment_or_insert_with<F: FnOnce(&K) -> V>(&mut self, k: K, v: F) -> (r: Result<
        &mut V,
        CountSaturatedError,
    >)
        requires
            !lawful_key::<K>() || !old(self)@.contains_key(k) ==> v.requires((&k,)),
        ensures
            lawful_key::<K>() ==> final(self)@.dom().finite(),
            lawful_key::<K>() && old(self)@.contains_key(k) ==> {
                let c = old(self)@[k].0;
                &&& (r is Err <==> c.value() + 1 > C::max_count())
                &&& r is Err ==> final(self)@ == old(self)@
                &&& r is Ok ==> {
                    &&& *r->Ok_0 == old(self)@[k].1
                    &&& count_moved(old(self)@, final(self)@, k, 1)
                    &&& final(self)@[k].1 == *final(r->Ok_0)
                }
            },
            lawful_key::<K>() && !old(self)@.contains_key(k) ==> {
                &&& r is Ok
                &&& v.ensures((&k,), *r->Ok_0)
                &&& final(self)@.dom() == old(self)@.dom().insert(k)
                &&& final(self)@.len() == old(self)@.len() + 1
                &&& final(self)@[k].0.value() == 1
                &&& final(self)@[k].1 == *final(r->Ok_0)
                &&& final(self)@.remove(k) == old(self)@
            },
    {
        proof {
            use_type_invariant(&*self);
            if lawful_key::<K>() {
                self.lemma_wf();
            }
        }
        let ghost s = self.entries();
        let (i, found) = self.position(&k);
        if found {
            proof {
                if lawful_key::<K>() {
                    lemma_entries_map_at(s, i as int);
                    assert forall|e: (K, (C, V))| e.0 == s[i as int].0 implies strictly_ascending(
                        #[trigger] s.update(i as int, e),
                    ) && entries_map(s.update(i as int, e)) == entries_map(s).insert(e.0, e.1) by {
                        lemma_entries_map_update(s, i as int, e);
                    }
                }
                assert forall|slot: (C, V)| #[trigger] zip_entries(self.keys@, self.slots@.update(i as int, slot))
                    == s.update(i as int, (self.keys@[i as int], slot)) by {
                    lemma_zip_update(self.keys@, self.slots@, i as int, slot);
                }
            }
            match self.slots[i].0.checked_increment() {
                None => Err(CountSaturatedError),
                Some(n) => {
                    proof {
                        C::lemma_bounds(&n);
                    }
                    let slot = &mut self.slots[i];
                    slot.0 = n;
                    Ok(&mut slot.1)
                },
            }
        } else {
            proof {
                if lawful_key::<K>() {
                    lemma_key_absent(s, i as int, k);
                }
            }
            let value = v(&k);
            let one = C::one();
            proof {
                if lawful_key::<K>() {
                    lemma_entries_map_insert(s, i as int, (k, (one, value)));
                }
            }
            let mut taken = Self::new();
            std::mem::swap(&mut taken, self);
            proof {
                use_type_invariant(&taken);
            }
            let RcBTreeMap { mut keys, mut slots } = taken;
            keys.insert(i, k);
            slots.insert(i, (one, value));
            proof {
                assert(zip_entries(keys@, slots@) =~= s.insert(i as int, (k, (one, value))));
                lemma_zip_ascending(keys@, slots@);
            }
            *self = RcBTreeMap { keys, slots };
            proof {
                let t = self.entries();
                if lawful_key::<K>() {
                    lemma_entries_map_len(t);
                    assert forall|e: (K, (C, V))| e.0 == t[i as int].0 implies strictly_ascending(
                        #[trigger] t.update(i as int, e),
                    ) && entries_map(t.update(i as int, e)) == entries_map(t).insert(e.0, e.1) by {
                        lemma_entries_map_update(t, i as int, e);
                    }
                }
                assert forall|slot: (C, V)| #[trigger] zip_entries(self.keys@, self.slots@.update(i as int, slot))
                    == t.update(i as int, (self.keys@[i as int], slot)) by {
                    lemma_zip_update(self.keys@, self.slots@, i as int, slot);
                }
            }
            Ok(&mut self.slots[i].1)
        }
    }

    /// Lowers the count of `k` by one and gives access to its value, keeping the
    /// entry even where the count reaches zero; `None` where `k` is absent.
    ///
    /// Fails, changing nothing, where the count of `k` is already the smallest
    /// its type holds.
    pub fn weak_decrement(&mut self, k: &K) -> (r: Result<Option<&mut V>, CountSaturatedError>)
        ensures
            lawful_key::<K>() ==> final(self)@.dom().finite(),
            lawful_key::<K>() && !old(self)@.contains_key(*k) ==> r is Ok && r->Ok_0 is None && final(self)@ == old(
                self,
            )@,
            lawful_key::<K>() && old(self)@.contains_key(*k) ==> {
                let c = old(self)@[*k].0;
                &&& (r is Err <==> c.value() - 1 < C::min_count())
                &&& r is Err ==> final(self)@ == old(self)@
                &&& r is Ok ==> {
                    &&& r->Ok_0 is Some
                    &&& *r->Ok_0->Some_0 == old(self)@[*k].1
                    &&& count_moved(old(self)@, final(self)@, *k, -1)
                    &&& final(self)@[*k].1 == *final(r->Ok_0->Some_0)
                }
            },
    {
        proof {
            use_type_invariant(&*self);
            if lawful_key::<K>() {
                self.lemma_wf();
            }
        }
        let ghost s = self.entries();
        let (i, found) = self.position(k);
        if found {
            proof {
                if lawful_key::<K>() {
                    lemma_entries_map_at(s, i as int);
                    assert forall|e: (K, (C, V))| e.0 == s[i as int].0 implies strictly_ascending(
                        #[trigger] s.update(i as int, e),
                    ) && entries_map(s.update(i as int, e)) == entries_map(s).insert(e.0, e.1) by {
                        lemma_entries_map_update(s, i as int, e);
                    }
                }
                assert forall|slot: (C, V)| #[trigger] zip_entries(self.keys@, self.slots@.update(i as int, slot))
                    == s.update(i as int, (self.keys@[i as int], slot)) by {
                    lemma_zip_update(self.keys@, self.slots@, i as int, slot);
                }
            }
            match self.slots[i].0.checked_decrement() {
                None => Err(CountSaturatedError),
                Some(n) => {
                    proof {
                        C::lemma_bounds(&n);
                    }
                    let slot = &mut self.slots[i];
                    slot.0 = n;
                    Ok(Some(&mut slot.1))
                },
            }
        } else {
            proof {
                if lawful_key::<K>() {
                    lemma_key_absent(s, i as int, *k);
                }
            }
            Ok(None)
        }
    }

    /// Removes every entry whose count is zero and hands them out, in
    /// ascending key order, as key and value.
    pub fn drain_weak(&mut self) -> (r: DrainWeak<K, C, V>)
        ensures
            lawful_key::<K>() ==> {
                &&& final(self)@.dom().finite()
                &&& forall|k: K|
                    #[trigger] final(self)@.contains_key(k) <==> old(self)@.contains_key(k) && old(
                        self,
                    )@[k].0.value() != 0
                &&& forall|k: K| #[trigger]
                    final(self)@.contains_key(k) ==> final(self)@[k] == old(self)@[k]
                &&& forall|k: K| #[trigger]
                    final(self)@.contains_key(k) ==> final(self)@[k].0.value() != 0
                &&& forall|i: int, j: int|
                    0 <= i < j < r@.len() ==> key_lt(#[trigger] r@[i].0, #[trigger] r@[j].0)
                &&& forall|i: int|
                    0 <= i < r@.len() ==> {
                        let k = #[trigger] r@[i].0;
                        &&& old(self)@.contains_key(k)
                        &&& old(self)@[k].0.value() == 0
                        &&& r@[i].1 == old(self)@[k].1
                    }
                &&& forall|k: K|
                    old(self)@.contains_key(k) && #[trigger] old(self)@[k].0.value() == 0 ==> exists|
                        i: int,
                    | 0 <= i < r@.len() && #[trigger] r@[i].0 == k
            },
    {
        proof {
            use_type_invariant(&*self);
            if lawful_key::<K>() {
                self.lemma_wf();
                lemma_key_order::<K>();
            }
        }
        let ghost s = self.entries();
        let ghost m = entries_map(s);
        let ghost len0 = s.len();
        let mut taken = Self::new();
        std::mem::swap(&mut taken, self);
        let RcBTreeMap { mut keys, mut slots } = taken;
        assert(zip_entries(keys@, slots@) == s);
        let mut kept_keys: Vec<K> = Vec::new();
        let mut kept_slots: Vec<(C, V)> = Vec::new();
        let mut drained: Vec<(K, (C, V))> = Vec::new();
        while keys.len() > 0
            invariant
                lawful_key::<K>() ==> strictly_ascending(s),
                m == entries_map(s),
                len0 == s.len(),
                keys.len() == slots.len(),
                keys.len() <= len0,
                forall|j: int| 0 <= j < keys.len() ==> #[trigger] keys@[j] == s[j].0 && slots@[j] == s[j].1,
                kept_keys.len() == kept_slots.len(),
                lawful_key::<K>() ==> forall|p: int, q: int|
                    0 <= p < q < kept_keys.len() ==> #[trigger] kept_keys@[p] != #[trigger] kept_keys@[q]
                        && key_lt(kept_keys@[q], kept_keys@[p]),
                lawful_key::<K>() ==> forall|p: int, q: int|
                    0 <= p < q < drained.len() ==> #[trigger] drained@[p].0 != #[trigger] drained@[q].0
                        && key_lt(drained@[q].0, drained@[p].0),
                lawful_key::<K>() ==> forall|p: int, j: int|
                    0 <= p < kept_keys.len() && 0 <= j < keys.len() ==> key_lt(
                        #[trigger] s[j].0,
                        #[trigger] kept_keys@[p],
                    ),
                lawful_key::<K>() ==> forall|p: int, j: int|
                    0 <= p < drained.len() && 0 <= j < keys.len() ==> key_lt(
                        #[trigger] s[j].0,
                        #[trigger] drained@[p].0,
                    ),
                lawful_key::<K>() ==> forall|p: int|
                    0 <= p < kept_keys.len() ==> m.contains_key(#[trigger] kept_keys@[p])
                        && m[kept_keys@[p]] == kept_slots@[p] && kept_slots@[p].0.value() != 0,
                lawful_key::<K>() ==> forall|p: int|
                    0 <= p < drained.len() ==> m.contains_key(#[trigger] drained@[p].0)
                        && m[drained@[p].0] == drained@[p].1 && drained@[p].1.0.value() == 0,
                lawful_key::<K>() ==> forall|j: int|
                    keys.len() <= j < len0 && #[trigger] s[j].1.0.value() != 0 ==> exists|p: int|
                        0 <= p < kept_keys.len() && #[trigger] kept_keys@[p] == s[j].0,
                lawful_key::<K>() ==> forall|j: int|
                    keys.len() <= j < len0 && #[trigger] s[j].1.0.value() == 0 ==> exists|p: int|
                        0 <= p < drained.len() && #[trigger] drained@[p].0 == s[j].0,
            decreases keys.len(),
        {
            let ghost idx = keys.len() - 1;
            proof {
                if lawful_key::<K>() {
                    lemma_entries_map_at(s, idx as int);
                    lemma_key_order::<K>();
                }
            }
            let key = keys.pop().unwrap();
            let mut slot = slots.pop().unwrap();
            assert(key == s[idx as int].0 && slot == s[idx as int].1);
            let ghost old_kept = kept_keys@;
            let ghost old_drained = drained@;
            if DrainWeak::<K, C, V>::weak_filter(&key, &mut slot) {
                drained.push((key, slot));
                proof {
                    if lawful_key::<K>() {
                        let d = drained@;
                        assert forall|p: int, q: int| 0 <= p < q < d.len() implies #[trigger] d[p].0
                            != #[trigger] d[q].0 && key_lt(d[q].0, d[p].0) by {
                            if q == d.len() - 1 {
                                assert(key_lt(s[idx as int].0, old_drained[p].0));
                            } else {
                                assert(old_drained[p] == d[p] && old_drained[q] == d[q]);
                            }
                    }
                    assert forall|p: int, j: int| 0 <= p < d.len() && 0 <= j < keys.len() implies key_lt(
                        #[trigger] s[j].0,
                        #[trigger] d[p].0,
                    ) by {
                        if p == d.len() - 1 {
                            assert(key_lt(s[j].0, s[idx as int].0));
                        } else {
                            assert(old_drained[p] == d[p]);
                        }
                    }
                    assert forall|p: int| 0 <= p < d.len() implies m.contains_key(#[trigger] d[p].0)
                        && m[d[p].0] == d[p].1 && d[p].1.0.value() == 0 by {
                        if p < d.len() - 1 {
                            assert(old_drained[p] == d[p]);
                        }
                    }
                    assert forall|j: int|
                        keys.len() <= j < len0 && #[trigger] s[j].1.0.value() == 0 implies exists|
                        p: int,
                    | 0 <= p < d.len() && #[trigger] d[p].0 == s[j].0 by {
                        if j == idx {
                            assert(d[d.len() - 1].0 == s[j].0);
                        } else {
                            let p = choose|p: int|
                                0 <= p < old_drained.len() && #[trigger] old_drained[p].0 == s[j].0;
                            assert(d[p].0 == s[j].0);
                        }
                    }
                    }
                }
            } else {
                let ghost old_slots_kept = kept_slots@;
                kept_keys.push(key);
                kept_slots.push(slot);
                proof {
                    if lawful_key::<K>() {
                        let d = kept_keys@;
                        assert forall|p: int, q: int| 0 <= p < q < d.len() implies #[trigger] d[p]
                            != #[trigger] d[q] && key_lt(d[q], d[p]) by {
                            if q == d.len() - 1 {
                                assert(key_lt(s[idx as int].0, old_kept[p]));
                            } else {
                                assert(old_kept[p] == d[p] && old_kept[q] == d[q]);
                            }
                    }
                    assert forall|p: int, j: int| 0 <= p < d.len() && 0 <= j < keys.len() implies key_lt(
                        #[trigger] s[j].0,
                        #[trigger] d[p],
                    ) by {
                        if p == d.len() - 1 {
                            assert(key_lt(s[j].0, s[idx as int].0));
                        } else {
                            assert(old_kept[p] == d[p]);
                        }
                    }
                    assert forall|p: int| 0 <= p < d.len() implies m.contains_key(#[trigger] d[p])
                        && m[d[p]] == kept_slots@[p] && kept_slots@[p].0.value() != 0 by {
                        if p < d.len() - 1 {
                            assert(old_kept[p] == d[p] && old_slots_kept[p] == kept_slots@[p]);
                        }
                    }
                    assert forall|j: int|
                        keys.len() <= j < len0 && #[trigger] s[j].1.0.value() != 0 implies exists|
                        p: int,
                    | 0 <= p < d.len() && #[trigger] d[p] == s[j].0 by {
                        if j == idx {
                            assert(d[d.len() - 1] == s[j].0);
                        } else {
                            let p = choose|p: int| 0 <= p < old_kept.len() && #[trigger] old_kept[p] == s[j].0;
                            assert(d[p] == s[j].0);
                        }
                    }
                    }
                }
            }
        }
        let ghost kk = kept_keys@;
        let ghost ks = kept_slots@;
        let ghost n0 = kk.len();
        let mut new_keys: Vec<K> = Vec::new();
        let mut new_slots: Vec<(C, V)> = Vec::new();
        while kept_keys.len() > 0
            invariant
                kept_keys.len() == kept_slots.len(),
                kept_keys.len() <= n0,
                kk.len() == n0,
                ks.len() == n0,
                forall|p: int| 0 <= p < kept_keys.len() ==> #[trigger] kept_keys@[p] == kk[p] && kept_slots@[p] == ks[p],
                new_keys.len() == new_slots.len(),
                new_keys.len() + kept_keys.len() == n0,
                forall|t: int|
                    0 <= t < new_keys.len() ==> #[trigger] new_keys@[t] == kk[n0 - 1 - t] && new_slots@[t]
                        == ks[n0 - 1 - t],
            decreases kept_keys.len(),
        {
            let key = kept_keys.pop().unwrap();
            let slot = kept_slots.pop().unwrap();
            new_keys.push(key);
            new_slots.push(slot);
        }
        proof {
            if lawful_key::<K>() {
                assert forall|i: int, j: int| 0 <= i < j < new_keys@.len() implies #[trigger] new_keys@[i]
                    != #[trigger] new_keys@[j] && key_lt(new_keys@[i], new_keys@[j]) by {
                    assert(new_keys@[i] == kk[n0 - 1 - i] && new_keys@[j] == kk[n0 - 1 - j]);
                }
            }
        }
        *self = RcBTreeMap { keys: new_keys, slots: new_slots };
        proof {
            if lawful_key::<K>() {
                self.lemma_wf();
                let t = self.entries();
                let n = entries_map(t);
                assert forall|i: int| 0 <= i < t.len() implies #[trigger] t[i] == (kk[n0 - 1 - i], ks[n0 - 1 - i]) by {
                }
                assert forall|k: K| #[trigger] n.contains_key(k) <==> m.contains_key(k) && m[k].0.value()
                    != 0 by {
                    if m.contains_key(k) && m[k].0.value() != 0 {
                        let j = choose|j: int| 0 <= j < s.len() && s[j].0 == k;
                        lemma_entries_map_at(s, j);
                        let p = choose|p: int| 0 <= p < kk.len() && #[trigger] kk[p] == s[j].0;
                        assert(t[n0 - 1 - p].0 == k);
                    }
                    if n.contains_key(k) {
                        let a = choose|a: int| 0 <= a < t.len() && t[a].0 == k;
                        assert(kk[n0 - 1 - a] == k);
                    }
                }
                assert forall|k: K| #[trigger] n.contains_key(k) implies n[k] == m[k] by {
                    let a = choose|a: int| 0 <= a < t.len() && t[a].0 == k;
                    lemma_entries_map_at(t, a);
                    assert(kk[n0 - 1 - a] == k);
                }
            }
        }
        let r = DrainWeak { items: drained };
        proof {
            if lawful_key::<K>() {
                assert forall|k: K|
                    m.contains_key(k) && #[trigger] m[k].0.value() == 0 implies exists|i: int|
                    0 <= i < r@.len() && #[trigger] r@[i].0 == k by {
                    let j = choose|j: int| 0 <= j < s.len() && s[j].0 == k;
                    lemma_entries_map_at(s, j);
                    let p = choose|p: int| 0 <= p < r.items@.len() && #[trigger] r.items@[p].0 == s[j].0;
                    assert(r@[r.items@.len() - 1 - p].0 == k);
                }
                assert forall|i: int, j: int| 0 <= i < j < r@.len() implies key_lt(
                    #[trigger] r@[i].0,
                    #[trigger] r@[j].0,
                ) by {
                    let l = r.items@.len();
                    assert(r@[i].0 == r.items@[l - 1 - i].0);
                    assert(r@[j].0 == r.items@[l - 1 - j].0);
                }
                assert forall|i: int| 0 <= i < r@.len() implies {
                    let k = #[trigger] r@[i].0;
                    &&& m.contains_key(k)
                    &&& m[k].0.value() == 0
                    &&& r@[i].1 == m[k].1
                } by {
                    let l = r.items@.len();
                    assert(r@[i] == (r.items@[l - 1 - i].0, r.items@[l - 1 - i].1.1));
                }
            }
        }
        r
    }

    /// Where `k` stands or would stand among the keys, and whether it is there.
    fn position(&self, k: &K) -> (r: (usize, bool))
        ensures
            r.0 <= self.keys@.len(),
            r.1 ==> r.0 < self.keys@.len(),
            lawful_key::<K>() ==> {
                &&& forall|i: int| 0 <= i < r.0 ==> key_lt(#[trigger] self.keys@[i], *k)
                &&& r.1 == (r.0 < self.keys@.len() && self.keys@[r.0 as int] == *k)
                &&& !r.1 && r.0 < self.keys@.len() ==> key_lt(*k, self.keys@[r.0 as int])
            },
    {
        proof {
            if lawful_key::<K>() {
                lemma_key_order::<K>();
            }
        }
        let mut i: usize = 0;
        while i < self.keys.len() && key_less(&self.keys[i], k)
            invariant
                i <= self.keys@.len(),
                lawful_key::<K>() ==> forall|j: int| 0 <= j < i ==> key_lt(#[trigger] self.keys@[j], *k),
            decreases self.keys@.len() - i,
        {
            i = i + 1;
        }
        let found = i < self.keys.len() && key_equal(&self.keys[i], k);
        (i, found)
    }
}

impl<K: Ord, C: Count, V> Default for RcBTreeMap<K, C, V> {
    fn default() -> (r: Self)
        ensures
            r@ == Map::<K, (C, V)>::empty(),
            r@.dom().finite(),
    {
        Self::new()
    }
}

/// The entries that `RcBTreeMap::drain_weak` removed, handed out in ascending
/// key order.
///
/// Its view is the sequence of keys and values still to come.
pub struct DrainWeak<K, C, V> {
    /// The entries still to come, last first.
    items: Vec<(K, (C, V))>,
}

impl<K, C, V> View for DrainWeak<K, C, V> {
    type V = Seq<(K, V)>;

    closed spec fn view(&self) -> Seq<(K, V)> {
        Seq::new(
            self.items@.len(),
            |i: int|
                (
                    self.items@[self.items@.len() - 1 - i].0,
                    self.items@[self.items@.len() - 1 - i].1.1,
                ),
        )
    }
}

impl<K, C: Count, V> DrainWeak<K, C, V> {
    /// Whether an entry is weak, that is, whether its count is zero.
    pub fn weak_filter(_key: &K, entry: &mut (C, V)) -> (r: bool)
        ensures
            r == (old(entry).0.value() == 0),
            *final(entry) == *old(entry),
    {
        entry.0.is_zero()
    }

    /// The next key and value, front first; `None` once all are handed out.
    pub fn next(&mut self) -> (r: Option<(K, V)>)
        ensures
            old(self)@.len() == 0 ==> r is None && final(self)@ == old(self)@,
            old(self)@.len() > 0 ==> r == Some(old(self)@[0]) && final(self)@ == old(
                self,
            )@.drop_first(),
    {
        match self.items.pop() {
            None => {
                assert(self@ =~= old(self)@);
                None
            },
            Some(e) => {
                assert(self@ =~= old(self)@.drop_first());
                Some((e.0, e.1.1))
            },
        }
    }

    /// The exact number of items still to come, as lower and upper bound.
    pub fn size_hint(&self) -> (r: (usize, Option<usize>))
        ensures
            r.0 == self@.len(),
            r.1 == Some(self@.len() as usize),
    {
        let n = self.items.len();
        (n, Some(n))
    }
}

} // verus!
