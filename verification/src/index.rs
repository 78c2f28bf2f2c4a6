//! A per-column ordered index: an ordered map from 64-bit key to the
//! insertion-ordered list of record identifiers holding that key. The
//! primary-key column's index additionally enforces uniqueness through
//! `insert_unique`. The map is kept as an association list sorted by key.

use vstd::prelude::*;

verus! {

/// Keys strictly increase along the entry list, so keys are distinct.
pub open spec fn entries_sorted(s: Seq<(i64, Seq<i64>)>) -> bool {
    forall|i: int, j: int| 0 <= i < j < s.len() ==> (#[trigger] s[i]).0 < (#[trigger] s[j]).0
}

/// The record list stored under `key`, searched from position `i` onward.
pub open spec fn spec_find_from(s: Seq<(i64, Seq<i64>)>, i: int, key: i64) -> Option<Seq<i64>>
    decreases s.len() - i,
{
    if i < 0 || i >= s.len() {
        None
    } else if s[i].0 == key {
        Some(s[i].1)
    } else {
        spec_find_from(s, i + 1, key)
    }
}

/// The record list stored under `key`, if the key is present.
pub open spec fn spec_find(s: Seq<(i64, Seq<i64>)>, key: i64) -> Option<Seq<i64>> {
    spec_find_from(s, 0, key)
}

/// The record identifiers of all keys in `[begin, end]`, flattened in
/// ascending key order, from position `i` onward.
pub open spec fn spec_range_from(s: Seq<(i64, Seq<i64>)>, i: int, begin: i64, end: i64) -> Seq<i64>
    decreases s.len() - i,
{
    if i < 0 || i >= s.len() {
        Seq::empty()
    } else if begin <= s[i].0 <= end {
        s[i].1 + spec_range_from(s, i + 1, begin, end)
    } else {
        spec_range_from(s, i + 1, begin, end)
    }
}

/// The record identifiers of all keys in `[begin, end]`, flattened in
/// ascending key order.
pub open spec fn spec_range(s: Seq<(i64, Seq<i64>)>, begin: i64, end: i64) -> Seq<i64> {
    spec_range_from(s, 0, begin, end)
}

/// `l` with its first occurrence of `rid` removed.
pub open spec fn remove_first(l: Seq<i64>, rid: i64) -> Seq<i64>
    decreases l.len(),
{
    if l.len() == 0 {
        l
    } else if l[0] == rid {
        l.skip(1)
    } else {
        seq![l[0]] + remove_first(l.skip(1), rid)
    }
}

/// Whatever survives removing the first occurrence was already present.
pub proof fn lemma_remove_first_subset(l: Seq<i64>, rid: i64)
    ensures
        forall|p: int| 0 <= p < remove_first(l, rid).len() ==> l.contains(#[trigger] remove_first(l, rid)[p]),
    decreases l.len(),
{
    if l.len() > 0 && l[0] != rid {
        lemma_remove_first_subset(l.skip(1), rid);
        assert forall|p: int|
            0 <= p < remove_first(l, rid).len() implies l.contains(
            #[trigger] remove_first(l, rid)[p],
        ) by {
            if p == 0 {
                assert(l[0] == remove_first(l, rid)[p]);
            } else {
                let q = choose|q: int|
                    0 <= q < l.skip(1).len() && l.skip(1)[q] == remove_first(l.skip(1), rid)[p - 1];
                assert(l[q + 1] == remove_first(l, rid)[p]);
            }
        }
    } else if l.len() > 0 {
        assert forall|p: int|
            0 <= p < remove_first(l, rid).len() implies l.contains(
            #[trigger] remove_first(l, rid)[p],
        ) by {
            assert(l[p + 1] == remove_first(l, rid)[p]);
        }
    }
}

/// In a sorted entry list, finding a key whose position is known yields
/// exactly that entry's list.
pub proof fn lemma_find_at(s: Seq<(i64, Seq<i64>)>, i: int, p: int)
    requires
        entries_sorted(s),
        0 <= i <= p < s.len(),
    ensures
        spec_find_from(s, i, s[p].0) == Some(s[p].1),
    decreases p - i,
{
    if s[i].0 == s[p].0 {
        assert(i == p);
    } else {
        assert(i < p);
        lemma_find_at(s, i + 1, p);
    }
}

/// A key held by no entry is not found.
pub proof fn lemma_find_absent(s: Seq<(i64, Seq<i64>)>, i: int, key: i64)
    requires
        forall|j: int| 0 <= j < s.len() ==> (#[trigger] s[j]).0 != key,
    ensures
        spec_find_from(s, i, key) is None,
    decreases s.len() - i,
{
    if 0 <= i < s.len() {
        lemma_find_absent(s, i + 1, key);
    }
}

/// When the scan for `key` stopped at position `p` without matching, no
/// entry at all holds `key`.
pub proof fn lemma_key_absent(s: Seq<(i64, Seq<i64>)>, p: int, key: i64)
    requires
        entries_sorted(s),
        0 <= p <= s.len(),
        forall|j: int| 0 <= j < p ==> (#[trigger] s[j]).0 < key,
        p < s.len() ==> s[p].0 > key,
    ensures
        spec_find(s, key) is None,
        forall|j: int| 0 <= j < s.len() ==> (#[trigger] s[j]).0 != key,
{
    assert forall|j: int| 0 <= j < s.len() implies (#[trigger] s[j]).0 != key by {
        if j >= p && p < s.len() && j != p {
            assert(s[p].0 < s[j].0);
        }
    }
    lemma_find_absent(s, 0, key);
}

/// Every identifier listed by a range scan comes from some entry's list.
pub proof fn lemma_range_elements_member(s: Seq<(i64, Seq<i64>)>, i: int, begin: i64, end: i64)
    ensures
        forall|p: int|
            #![trigger spec_range_from(s, i, begin, end)[p]]
            0 <= p < spec_range_from(s, i, begin, end).len() ==> exists|k: int|
                i <= k < s.len() && begin <= (#[trigger] s[k]).0 <= end && s[k].1.contains(
                    spec_range_from(s, i, begin, end)[p],
                ),
    decreases s.len() - i,
{
    if !(0 <= i < s.len()) {
        assert(spec_range_from(s, i, begin, end).len() == 0);
    } else {
        lemma_range_elements_member(s, i + 1, begin, end);
        assert forall|p: int|
            #![trigger spec_range_from(s, i, begin, end)[p]]
            0 <= p < spec_range_from(s, i, begin, end).len() implies exists|k: int|
            i <= k < s.len() && begin <= (#[trigger] s[k]).0 <= end && s[k].1.contains(
                spec_range_from(s, i, begin, end)[p],
            ) by {
            let el = spec_range_from(s, i, begin, end)[p];
            assert(0 <= i < s.len());
            if begin <= s[i].0 <= end {
                if p < s[i].1.len() {
                    assert(s[i].1[p] == el);
                    assert(s[i].1.contains(el));
                } else {
                    let p2 = p - s[i].1.len();
                    assert(spec_range_from(s, i + 1, begin, end)[p2] == el);
                    let k = choose|k: int|
                        i + 1 <= k < s.len() && begin <= (#[trigger] s[k]).0 <= end
                            && s[k].1.contains(spec_range_from(s, i + 1, begin, end)[p2]);
                    assert(i <= k < s.len() && begin <= s[k].0 <= end && s[k].1.contains(el));
                }
            } else {
                let k = choose|k: int|
                    i + 1 <= k < s.len() && begin <= (#[trigger] s[k]).0 <= end && s[k].1.contains(
                        spec_range_from(s, i + 1, begin, end)[p],
                    );
                assert(i <= k < s.len() && begin <= s[k].0 <= end && s[k].1.contains(el));
            }
        }
    }
}

/// One per-column index.
pub struct Index {
    entries: Vec<(i64, Vec<i64>)>,
}

impl View for Index {
    type V = Seq<(i64, Seq<i64>)>;

    closed spec fn view(&self) -> Seq<(i64, Seq<i64>)> {
        self.entries@.map_values(|e: (i64, Vec<i64>)| (e.0, e.1@))
    }
}

impl Index {
    /// Every key appears once, in increasing order, and no key holds an
    /// empty record list.
    pub open spec fn wf(self) -> bool {
        &&& entries_sorted(self@)
        &&& forall|i: int| 0 <= i < self@.len() ==> (#[trigger] self@[i]).1.len() > 0
    }

    pub fn new() -> (idx: Index)
        ensures
            idx.wf(),
            idx@ =~= Seq::<(i64, Seq<i64>)>::empty(),
    {
        Index { entries: Vec::new() }
    }

    /// Position of the first entry whose key is `>= key`, which is the
    /// position of `key` itself when present.
    fn lower_bound(&self, key: i64) -> (p: usize)
        requires
            self.wf(),
        ensures
            p <= self@.len(),
            forall|j: int| 0 <= j < p ==> (#[trigger] self@[j]).0 < key,
            p < self@.len() ==> self@[p as int].0 >= key,
    {
        let mut p: usize = 0;
        while p < self.entries.len()
            invariant
                self.wf(),
                p <= self@.len(),
                self@.len() == self.entries@.len(),
                forall|j: int| 0 <= j < p ==> (#[trigger] self@[j]).0 < key,
            decreases self@.len() - p,
        {
            if self.entries[p].0 >= key {
                return p;
            }
            assert(self@[p as int].0 < key);
            p = p + 1;
        }
        p
    }

    /// All record identifiers filed under `key`, in insertion order, or
    /// `None` when the key is absent.
    pub fn locate(&self, key: i64) -> (r: Option<&Vec<i64>>)
        requires
            self.wf(),
        ensures
            match r {
                Some(l) => spec_find(self@, key) == Some(l@),
                None => spec_find(self@, key) is None,
            },
    {
        let p = self.lower_bound(key);
        if p < self.entries.len() && self.entries[p].0 == key {
            proof {
                lemma_find_at(self@, 0, p as int);
            }
            Some(&self.entries[p].1)
        } else {
            proof {
                lemma_key_absent(self@, p as int, key);
            }
            None
        }
    }

    /// Appends `rid` to the list under `key`, creating the key if absent.
    pub fn insert(&mut self, key: i64, rid: i64)
        requires
            old(self).wf(),
        ensures
            final(self).wf(),
            spec_find(final(self)@, key) == match spec_find(old(self)@, key) {
                Some(l) => Some(l.push(rid)),
                None => Some(seq![rid]),
            },
            forall|k: i64|
                k != key ==> #[trigger] spec_find(final(self)@, k) == spec_find(old(self)@, k),
    {
        let p = self.lower_bound(key);
        let ghost s_old = self@;
        if p < self.entries.len() && self.entries[p].0 == key {
            proof {
                lemma_find_at(s_old, 0, p as int);
            }
            let mut pair = self.entries.remove(p);
            pair.1.push(rid);
            self.entries.insert(p, pair);
            proof {
                assert(self@ =~= s_old.update(p as int, (key, s_old[p as int].1.push(rid))));
                self.lemma_find_after_key_change(s_old, p as int, key, rid);
            }
        } else {
            proof {
                lemma_key_absent(s_old, p as int, key);
            }
            let mut l: Vec<i64> = Vec::new();
            l.push(rid);
            self.entries.insert(p, (key, l));
            proof {
                assert(self@ =~= s_old.insert(p as int, (key, seq![rid])));
                self.lemma_find_after_fresh_insert(s_old, p as int, key, rid);
            }
        }
    }

    /// After replacing the list at a known key position, lookups of that
    /// key see the new list and all other keys are unaffected.
    proof fn lemma_find_after_key_change(self, s_old: Seq<(i64, Seq<i64>)>, p: int, key: i64, rid: i64)
        requires
            entries_sorted(s_old),
            0 <= p < s_old.len(),
            s_old[p].0 == key,
            s_old[p].1.len() > 0,
            forall|i: int| 0 <= i < s_old.len() ==> (#[trigger] s_old[i]).1.len() > 0,
            self@ == s_old.update(p, (key, s_old[p].1.push(rid))),
        ensures
            self.wf(),
            spec_find(self@, key) == Some(s_old[p].1.push(rid)),
            forall|k: i64| k != key ==> #[trigger] spec_find(self@, k) == spec_find(s_old, k),
    {
        let s_new = self@;
        assert(entries_sorted(s_new)) by {
            assert(forall|i: int|
                0 <= i < s_new.len() ==> (#[trigger] s_new[i]).0 == s_old[i].0);
        }
        lemma_find_at(s_new, 0, p);
        assert forall|k: i64| k != key implies #[trigger] spec_find(s_new, k) == spec_find(
            s_old,
            k,
        ) by {
            if exists|j: int| 0 <= j < s_old.len() && (#[trigger] s_old[j]).0 == k {
                let j = choose|j: int| 0 <= j < s_old.len() && (#[trigger] s_old[j]).0 == k;
                lemma_find_at(s_old, 0, j);
                lemma_find_at(s_new, 0, j);
                assert(s_new[j] == s_old[j]);
            } else {
                lemma_find_absent(s_old, 0, k);
                assert(forall|j: int| 0 <= j < s_new.len() ==> (#[trigger] s_new[j]).0 != k);
                lemma_find_absent(s_new, 0, k);
            }
        }
    }

    /// After inserting a fresh key at its sorted position, lookups of that
    /// key see the fresh singleton and all other keys are unaffected.
    proof fn lemma_find_after_fresh_insert(self, s_old: Seq<(i64, Seq<i64>)>, p: int, key: i64, rid: i64)
        requires
            entries_sorted(s_old),
            0 <= p <= s_old.len(),
            forall|j: int| 0 <= j < p ==> (#[trigger] s_old[j]).0 < key,
            p < s_old.len() ==> s_old[p].0 > key,
            forall|i: int| 0 <= i < s_old.len() ==> (#[trigger] s_old[i]).1.len() > 0,
            self@ == s_old.insert(p, (key, seq![rid])),
        ensures
            self.wf(),
            spec_find(self@, key) == Some(seq![rid]),
            forall|k: i64| k != key ==> #[trigger] spec_find(self@, k) == spec_find(s_old, k),
    {
        let s_new = self@;
        assert(forall|i: int|
            0 <= i < p ==> (#[trigger] s_new[i]) == s_old[i]);
        assert(s_new[p] == (key, seq![rid]));
        assert(forall|i: int|
            p < i < s_new.len() ==> (#[trigger] s_new[i]) == s_old[i - 1]);
        assert(entries_sorted(s_new)) by {
            assert forall|i: int, j: int| 0 <= i < j < s_new.len() implies (#[trigger] s_new[i]).0
                < (#[trigger] s_new[j]).0 by {
                if i < p && j > p {
                    assert(s_old[i].0 < key);
                    assert(key < s_old[j - 1].0);
                }
            }
        }
        lemma_find_at(s_new, 0, p);
        assert forall|k: i64| k != key implies #[trigger] spec_find(s_new, k) == spec_find(
            s_old,
            k,
        ) by {
            if exists|j: int| 0 <= j < s_old.len() && (#[trigger] s_old[j]).0 == k {
                let j = choose|j: int| 0 <= j < s_old.len() && (#[trigger] s_old[j]).0 == k;
                lemma_find_at(s_old, 0, j);
                if j < p {
                    lemma_find_at(s_new, 0, j);
                } else {
                    lemma_find_at(s_new, 0, j + 1);
                }
            } else {
                lemma_find_absent(s_old, 0, k);
                assert(forall|j: int| 0 <= j < s_new.len() ==> (#[trigger] s_new[j]).0 != k);
                lemma_find_absent(s_new, 0, k);
            }
        }
    }

    /// Inserts only when the key is absent; used on the primary-key column
    /// to enforce uniqueness in a single traversal. Returns whether the
    /// insert happened.
    pub fn insert_unique(&mut self, key: i64, rid: i64) -> (inserted: bool)
        requires
            old(self).wf(),
        ensures
            final(self).wf(),
            inserted == (spec_find(old(self)@, key) is None),
            !inserted ==> *final(self) == *old(self),
            inserted ==> spec_find(final(self)@, key) == Some(seq![rid]),
            inserted ==> forall|k: i64|
                k != key ==> #[trigger] spec_find(final(self)@, k) == spec_find(old(self)@, k),
    {
        let p = self.lower_bound(key);
        let ghost s_old = self@;
        if p < self.entries.len() && self.entries[p].0 == key {
            proof {
                lemma_find_at(s_old, 0, p as int);
            }
            false
        } else {
            proof {
                lemma_key_absent(s_old, p as int, key);
            }
            let mut l: Vec<i64> = Vec::new();
            l.push(rid);
            self.entries.insert(p, (key, l));
            proof {
                assert(self@ =~= s_old.insert(p as int, (key, seq![rid])));
                self.lemma_find_after_fresh_insert(s_old, p as int, key, rid);
            }
            true
        }
    }

    /// Deletes one occurrence of `rid` from the list under `key`, dropping
    /// the key entirely once its list is empty. Absent keys are left alone.
    pub fn remove(&mut self, key: i64, rid: i64)
        requires
            old(self).wf(),
        ensures
            final(self).wf(),
            spec_find(final(self)@, key) == match spec_find(old(self)@, key) {
                Some(l) => if remove_first(l, rid).len() == 0 {
                    None::<Seq<i64>>
                } else {
                    Some(remove_first(l, rid))
                },
                None => None::<Seq<i64>>,
            },
            forall|k: i64|
                k != key ==> #[trigger] spec_find(final(self)@, k) == spec_find(old(self)@, k),
    {
        let p = self.lower_bound(key);
        let ghost s_old = self@;
        if p < self.entries.len() && self.entries[p].0 == key {
            proof {
                lemma_find_at(s_old, 0, p as int);
            }
            let mut pair = self.entries.remove(p);
            proof {
                assert(pair.1@ == s_old[p as int].1);
                assert(pair.1@.skip(0) =~= pair.1@);
                assert(pair.1@.take(0) =~= Seq::<i64>::empty());
                assert(Seq::<i64>::empty() + remove_first(pair.1@, rid) =~= remove_first(
                    pair.1@,
                    rid,
                ));
            }
            let mut out: Vec<i64> = Vec::new();
            let mut i: usize = 0;
            let mut removed = false;
            while i < pair.1.len()
                invariant
                    i <= pair.1@.len(),
                    !removed ==> out@ + remove_first(pair.1@.skip(i as int), rid) == remove_first(
                        pair.1@,
                        rid,
                    ) && out@ == pair.1@.take(i as int) && (forall|j: int|
                        0 <= j < i ==> pair.1@[j] != rid),
                    removed ==> out@ + pair.1@.skip(i as int) == remove_first(pair.1@, rid),
                decreases pair.1@.len() - i,
            {
                let v = pair.1[i];
                proof {
                    assert(pair.1@.skip(i as int)[0] == pair.1@[i as int]);
                    assert(pair.1@.skip(i as int).skip(1) =~= pair.1@.skip(i as int + 1));
                }
                if !removed && v == rid {
                    removed = true;
                } else {
                    out.push(v);
                    proof {
                        if !removed {
                            assert(seq![pair.1@[i as int]] + remove_first(
                                pair.1@.skip(i as int + 1),
                                rid,
                            ) == remove_first(pair.1@.skip(i as int), rid));
                            assert(out@ + remove_first(pair.1@.skip(i as int + 1), rid)
                                =~= remove_first(pair.1@, rid));
                            assert(out@ =~= pair.1@.take(i as int + 1));
                        } else {
                            assert(out@ + pair.1@.skip(i as int + 1) =~= remove_first(
                                pair.1@,
                                rid,
                            ));
                        }
                    }
                }
                i = i + 1;
            }
            proof {
                assert(pair.1@.skip(pair.1@.len() as int) =~= Seq::<i64>::empty());
                if !removed {
                    assert(remove_first(pair.1@.skip(pair.1@.len() as int), rid)
                        =~= Seq::<i64>::empty());
                }
                assert(out@ =~= remove_first(pair.1@, rid));
            }
            if out.len() == 0 {
                proof {
                    assert(self@ =~= s_old.remove(p as int));
                    self.lemma_find_after_entry_removed(s_old, p as int, key);
                }
            } else {
                let new_pair = (key, out);
                self.entries.insert(p, new_pair);
                proof {
                    assert(self@ =~= s_old.update(
                        p as int,
                        (key, remove_first(s_old[p as int].1, rid)),
                    ));
                    self.lemma_find_after_list_replaced(
                        s_old,
                        p as int,
                        key,
                        remove_first(s_old[p as int].1, rid),
                    );
                }
            }
        } else {
            proof {
                lemma_key_absent(s_old, p as int, key);
            }
        }
    }

    /// Removing a whole entry hides its key and leaves all other keys alone.
    proof fn lemma_find_after_entry_removed(self, s_old: Seq<(i64, Seq<i64>)>, p: int, key: i64)
        requires
            entries_sorted(s_old),
            0 <= p < s_old.len(),
            s_old[p].0 == key,
            forall|i: int| 0 <= i < s_old.len() ==> (#[trigger] s_old[i]).1.len() > 0,
            self@ == s_old.remove(p),
        ensures
            self.wf(),
            spec_find(self@, key) is None,
            forall|k: i64| k != key ==> #[trigger] spec_find(self@, k) == spec_find(s_old, k),
    {
        let s_new = self@;
        assert(forall|i: int| 0 <= i < p ==> (#[trigger] s_new[i]) == s_old[i]);
        assert(forall|i: int|
            p <= i < s_new.len() ==> (#[trigger] s_new[i]) == s_old[i + 1]);
        assert(entries_sorted(s_new));
        assert(forall|j: int| 0 <= j < s_new.len() ==> (#[trigger] s_new[j]).0 != key);
        lemma_find_absent(s_new, 0, key);
        assert forall|k: i64| k != key implies #[trigger] spec_find(s_new, k) == spec_find(
            s_old,
            k,
        ) by {
            if exists|j: int| 0 <= j < s_old.len() && (#[trigger] s_old[j]).0 == k {
                let j = choose|j: int| 0 <= j < s_old.len() && (#[trigger] s_old[j]).0 == k;
                lemma_find_at(s_old, 0, j);
                if j < p {
                    lemma_find_at(s_new, 0, j);
                } else {
                    lemma_find_at(s_new, 0, j - 1);
                }
            } else {
                lemma_find_absent(s_old, 0, k);
                assert(forall|j: int| 0 <= j < s_new.len() ==> (#[trigger] s_new[j]).0 != k);
                lemma_find_absent(s_new, 0, k);
            }
        }
    }

    /// Replacing the list at a known key position with a non-empty list.
    proof fn lemma_find_after_list_replaced(
        self,
        s_old: Seq<(i64, Seq<i64>)>,
        p: int,
        key: i64,
        l: Seq<i64>,
    )
        requires
            entries_sorted(s_old),
            0 <= p < s_old.len(),
            s_old[p].0 == key,
            l.len() > 0,
            forall|i: int| 0 <= i < s_old.len() ==> (#[trigger] s_old[i]).1.len() > 0,
            self@ == s_old.update(p, (key, l)),
        ensures
            self.wf(),
            spec_find(self@, key) == Some(l),
            forall|k: i64| k != key ==> #[trigger] spec_find(self@, k) == spec_find(s_old, k),
    {
        let s_new = self@;
        assert(entries_sorted(s_new)) by {
            assert(forall|i: int|
                0 <= i < s_new.len() ==> (#[trigger] s_new[i]).0 == s_old[i].0);
        }
        lemma_find_at(s_new, 0, p);
        assert forall|k: i64| k != key implies #[trigger] spec_find(s_new, k) == spec_find(
            s_old,
            k,
        ) by {
            if exists|j: int| 0 <= j < s_old.len() && (#[trigger] s_old[j]).0 == k {
                let j = choose|j: int| 0 <= j < s_old.len() && (#[trigger] s_old[j]).0 == k;
                lemma_find_at(s_old, 0, j);
                lemma_find_at(s_new, 0, j);
                assert(s_new[j] == s_old[j]);
            } else {
                lemma_find_absent(s_old, 0, k);
                assert(forall|j: int| 0 <= j < s_new.len() ==> (#[trigger] s_new[j]).0 != k);
                lemma_find_absent(s_new, 0, k);
            }
        }
    }

    /// All record identifiers of keys in the inclusive range, flattened in
    /// ascending key order; `None` when no key of the range is present.
    pub fn locate_range(&self, begin: i64, end: i64) -> (r: Option<Vec<i64>>)
        requires
            self.wf(),
        ensures
            match r {
                Some(l) => l@ == spec_range(self@, begin, end) && l@.len() > 0,
                None => spec_range(self@, begin, end).len() == 0,
            },
    {
        let mut out: Vec<i64> = Vec::new();
        let mut i: usize = 0;
        while i < self.entries.len()
            invariant
                self.wf(),
                i <= self@.len(),
                self@.len() == self.entries@.len(),
                out@ + spec_range_from(self@, i as int, begin, end) == spec_range(
                    self@,
                    begin,
                    end,
                ),
            decreases self@.len() - i,
        {
            if begin <= self.entries[i].0 && self.entries[i].0 <= end {
                let mut j: usize = 0;
                let ghost out_before = out@;
                while j < self.entries[i].1.len()
                    invariant
                        self.wf(),
                        i < self@.len(),
                        self@.len() == self.entries@.len(),
                        j <= self@[i as int].1.len(),
                        self.entries@[i as int].1@ == self@[i as int].1,
                        out@ == out_before + self@[i as int].1.take(j as int),
                    decreases self@[i as int].1.len() - j,
                {
                    out.push(self.entries[i].1[j]);
                    proof {
                        assert(out@ =~= out_before + self@[i as int].1.take(j as int + 1));
                    }
                    j = j + 1;
                }
                proof {
                    let ghost cur = self@[i as int].1;
                    assert(cur.take(cur.len() as int) =~= cur);
                    assert(out@ + spec_range_from(self@, i as int + 1, begin, end) =~= spec_range(
                        self@,
                        begin,
                        end,
                    ));
                }
            }
            i = i + 1;
        }
        proof {
            assert(spec_range_from(self@, self@.len() as int, begin, end)
                =~= Seq::<i64>::empty());
            assert(out@ =~= spec_range(self@, begin, end));
        }
        if out.len() == 0 {
            None
        } else {
            Some(out)
        }
    }
}

} // verus!
