//! The query layer: insert/select/update/delete/sum/increment and their
//! version-relative variants, implemented over the table and its indices.
//! Each operation's contract is stated against the primary index's entries
//! and the journal's lineage resolution.

use vstd::prelude::*;
use crate::error::DbError;
use crate::index::{spec_find, spec_range};
use crate::table::{
    Table, apply_delta, mask_apply, mask_has, refiled_find, resolve_latest, resolve_version,
    spec_deleted,
};

verus! {

/// The rows a lookup returns for the record identifiers `l`, newest values,
/// filtered through `mask`: logically deleted rows are skipped.
pub open spec fn spec_select(t: Table, l: Seq<i64>, mask: Seq<i64>, i: int) -> Seq<
    Seq<Option<i64>>,
>
    decreases l.len() - i,
{
    if i < 0 || i >= l.len() {
        Seq::empty()
    } else if spec_deleted(t.j(), l[i] as int) {
        spec_select(t, l, mask, i + 1)
    } else {
        seq![mask_apply(resolve_latest(t.j(), l[i] as int), mask)] + spec_select(t, l, mask, i + 1)
    }
}

/// As `spec_select`, but resolving each row as of `n` versions back.
pub open spec fn spec_select_version(t: Table, l: Seq<i64>, mask: Seq<i64>, n: nat, i: int) -> Seq<
    Seq<Option<i64>>,
>
    decreases l.len() - i,
{
    if i < 0 || i >= l.len() {
        Seq::empty()
    } else {
        seq![mask_apply(resolve_version(t.j(), l[i] as int, n), mask)] + spec_select_version(
            t,
            l,
            mask,
            n,
            i + 1,
        )
    }
}

/// Whether every row named in `l` holds a value in `col`, newest values.
pub open spec fn all_present(t: Table, l: Seq<i64>, col: int) -> bool {
    forall|i: int| 0 <= i < l.len() ==> (#[trigger] resolve_latest(t.j(), l[i] as int))[col] is Some
}

/// The 64-bit wrapping sum of the first `i` rows' newest values in `col`.
pub open spec fn wrap_sum_to(t: Table, l: Seq<i64>, col: int, i: int) -> i64
    decreases i,
{
    if i <= 0 {
        0i64
    } else {
        vstd::wrapping::i64_specs::wrapping_add(
            wrap_sum_to(t, l, col, i - 1),
            resolve_latest(t.j(), l[i - 1] as int)[col]->Some_0,
        )
    }
}

/// The 64-bit wrapping sum of all the rows' newest values in `col`.
pub open spec fn wrap_sum(t: Table, l: Seq<i64>, col: int) -> i64 {
    wrap_sum_to(t, l, col, l.len() as int)
}

/// Whether every row named in `l` holds a value in `col`, as of `n`
/// versions back.
pub open spec fn all_present_version(t: Table, l: Seq<i64>, col: int, n: nat) -> bool {
    forall|i: int|
        0 <= i < l.len() ==> (#[trigger] resolve_version(t.j(), l[i] as int, n))[col] is Some
}

/// The 64-bit wrapping sum of the first `i` rows' values in `col`, as of
/// `n` versions back.
pub open spec fn wrap_sum_version_to(t: Table, l: Seq<i64>, col: int, n: nat, i: int) -> i64
    decreases i,
{
    if i <= 0 {
        0i64
    } else {
        vstd::wrapping::i64_specs::wrapping_add(
            wrap_sum_version_to(t, l, col, n, i - 1),
            resolve_version(t.j(), l[i - 1] as int, n)[col]->Some_0,
        )
    }
}

/// The 64-bit wrapping sum of all the rows' values in `col`, as of `n`
/// versions back.
pub open spec fn wrap_sum_version(t: Table, l: Seq<i64>, col: int, n: nat) -> i64 {
    wrap_sum_version_to(t, l, col, n, l.len() as int)
}

/// The magnitude of a relative version, as a hop count.
pub open spec fn spec_hops(relative_version: i64) -> nat {
    (if relative_version < 0 {
        -(relative_version as int)
    } else {
        relative_version as int
    }) as nat
}

/// The query interface over one table.
pub struct Query {
    pub table: Table,
}

impl Query {
    pub open spec fn wf(self) -> bool {
        self.table.wf()
    }

    pub fn new(table: Table) -> (q: Query)
        ensures
            q.table == table,
    {
        Query { table }
    }

    /// Inserts a new row. The key column must be non-null; a duplicate or
    /// previously deleted key reports `false` with no state change.
    pub fn insert(&mut self, record: Vec<Option<i64>>) -> (r: Result<bool, DbError>)
        requires
            old(self).wf(),
            record@.len() == old(self).table.spec_num_columns(),
            old(self).table.record_count() + 1 < 0x4000_0000,
        ensures
            final(self).wf(),
            final(self).table.same_config(old(self).table),
            record@[old(self).table.spec_key_index()] is None ==> r == Err::<bool, DbError>(
                DbError::NullValue(old(self).table.spec_key_index() as usize),
            ) && final(self).table.unchanged_state(old(self).table),
            record@[old(self).table.spec_key_index()] is Some && {
                let k = record@[old(self).table.spec_key_index()]->Some_0;
                spec_find(old(self).table.primary(), k) is Some || old(
                    self,
                ).table.retired_keys().contains(k)
            } ==> r == Ok::<bool, DbError>(false) && final(self).table.unchanged_state(
                old(self).table,
            ),
            record@[old(self).table.spec_key_index()] is Some && {
                let k = record@[old(self).table.spec_key_index()]->Some_0;
                spec_find(old(self).table.primary(), k) is None && !old(
                    self,
                ).table.retired_keys().contains(k)
            } ==> {
                let k = record@[old(self).table.spec_key_index()]->Some_0;
                let rid = old(self).table.record_count();
                &&& r == Ok::<bool, DbError>(true)
                &&& final(self).table.record_count() == rid + 1
                &&& resolve_latest(final(self).table.j(), rid) == record@
                &&& !spec_deleted(final(self).table.j(), rid)
                &&& final(self).table.j()[rid].base
                &&& final(self).table.j()[rid].vals == record@
                &&& final(self).table.j()[rid].ind == rid
                &&& final(self).table.j()[rid].back == rid
                &&& final(self).table.j()[rid].schema == Some(0i64)
                &&& forall|x: int|
                    0 <= x < rid ==> (#[trigger] final(self).table.j()[x]).base == old(
                        self,
                    ).table.j()[x].base && final(self).table.j()[x].vals == old(self).table.j()[
                        x].vals
                &&& spec_find(final(self).table.primary(), k) == Some(seq![rid as i64])
                &&& forall|k2: i64|
                    k2 != k ==> #[trigger] spec_find(final(self).table.primary(), k2) == spec_find(
                        old(self).table.primary(),
                        k2,
                    )
                &&& forall|b: int|
                    0 <= b < rid && (#[trigger] old(self).table.j()[b]).base ==> resolve_latest(
                        final(self).table.j(),
                        b,
                    ) == resolve_latest(old(self).table.j(), b) && spec_deleted(
                        final(self).table.j(),
                        b,
                    ) == spec_deleted(old(self).table.j(), b)
                &&& final(self).table.retired_keys() == old(self).table.retired_keys()
            },
    {
        self.table.insert_record(record)
    }

    /// Point lookup: all current rows whose `search_key_index` column holds
    /// `key`, filtered through the 0/1 projection mask. A key no index
    /// entry holds fails with `KeyNotFound`.
    #[verifier::loop_isolation(false)]
    #[verifier::rlimit(50)]
    #[verifier::spinoff_prover]
    pub fn select(&self, key: i64, search_key_index: usize, projected_columns_index: &Vec<i64>) -> (r:
        Result<Vec<Vec<Option<i64>>>, DbError>)
        requires
            self.wf(),
            search_key_index < self.table.spec_num_columns(),
            projected_columns_index@.len() == self.table.spec_num_columns(),
        ensures
            match spec_find(self.table.index_view(search_key_index as int), key) {
                Some(l) => r is Ok && {
                    let rows = spec_select(self.table, l, projected_columns_index@, 0);
                    &&& r->Ok_0@.len() == rows.len()
                    &&& forall|i: int| 0 <= i < rows.len() ==> (#[trigger] r->Ok_0@[i])@ == rows[i]
                },
                None => r == Err::<Vec<Vec<Option<i64>>>, DbError>(DbError::KeyNotFound(key)),
            },
    {
        let ghost t = self.table;
        let rids = match self.table.indices[search_key_index].locate(key) {
            Some(l) => l,
            None => {
                return Err(DbError::KeyNotFound(key));
            },
        };
        let ghost lseq = rids@;
        let mut out: Vec<Vec<Option<i64>>> = Vec::new();
        let mut i: usize = 0;
        while i < rids.len()
            invariant
                self.wf(),
                t == self.table,
                search_key_index < t.spec_num_columns(),
                projected_columns_index@.len() == t.spec_num_columns(),
                i <= lseq.len(),
                rids@ == lseq,
                spec_find(t.index_view(search_key_index as int), key) == Some(lseq),
                out@.len() == spec_select(t, lseq.take(i as int), projected_columns_index@, 0).len(),
                forall|p: int|
                    0 <= p < out@.len() ==> (#[trigger] out@[p])@ == spec_select(
                        t,
                        lseq.take(i as int),
                        projected_columns_index@,
                        0,
                    )[p],
            decreases lseq.len() - i,
        {
            let rid = rids[i];
            proof {
                assert(t.secondaries_ok());
                assert(match spec_find(t.index_view(search_key_index as int), key) {
                    Some(l) => forall|p: int|
                        0 <= p < l.len() ==> 0 <= #[trigger] l[p] < t.j().len() && t.j()[
                            l[p] as int].base,
                    None => true,
                });
                assert(spec_find(t.index_view(search_key_index as int), key) == Some(lseq));
                assert(rid == lseq[i as int]);
                assert(0 <= rid < t.j().len() && t.j()[rid as int].base);
                lemma_select_take_step(t, lseq, projected_columns_index@, i as int);
            }
            let deleted = match self.table.is_deleted(rid) {
                Ok(d) => d,
                Err(_) => {
                    proof {
                        assert(false);
                    }
                    false
                },
            };
            if !deleted {
                let row = match self.table.read_latest_projected(projected_columns_index, rid) {
                    Ok(row) => row,
                    Err(_) => {
                        proof {
                            assert(false);
                        }
                        Vec::new()
                    },
                };
                out.push(row);
            }
            i = i + 1;
        }
        proof {
            assert(lseq.take(lseq.len() as int) =~= lseq);
        }
        Ok(out)
    }

    /// Point lookup as of `|relative_version|` chain hops back. A key no
    /// index entry holds fails with `KeyNotFound`; so does a located row
    /// that is deleted while a strictly negative version is requested.
    #[verifier::loop_isolation(false)]
    #[verifier::rlimit(50)]
    #[verifier::spinoff_prover]
    pub fn select_version(
        &self,
        key: i64,
        search_key_index: usize,
        projected_columns_index: &Vec<i64>,
        relative_version: i64,
    ) -> (r: Result<Vec<Vec<Option<i64>>>, DbError>)
        requires
            self.wf(),
            search_key_index < self.table.spec_num_columns(),
            projected_columns_index@.len() == self.table.spec_num_columns(),
            relative_version != i64::MIN,
        ensures
            match spec_find(self.table.index_view(search_key_index as int), key) {
                Some(l) => {
                    if relative_version < 0 && exists|i: int|
                        0 <= i < l.len() && spec_deleted(self.table.j(), l[i] as int) {
                        r == Err::<Vec<Vec<Option<i64>>>, DbError>(DbError::KeyNotFound(key))
                    } else {
                        r is Ok && {
                            let rows = spec_select_version(
                                self.table,
                                l,
                                projected_columns_index@,
                                spec_hops(relative_version),
                                0,
                            );
                            &&& r->Ok_0@.len() == rows.len()
                            &&& forall|i: int|
                                0 <= i < rows.len() ==> (#[trigger] r->Ok_0@[i])@ == rows[i]
                        }
                    }
                },
                None => r == Err::<Vec<Vec<Option<i64>>>, DbError>(DbError::KeyNotFound(key)),
            },
    {
        let ghost t = self.table;
        let ghost n = spec_hops(relative_version);
        let rids = match self.table.indices[search_key_index].locate(key) {
            Some(l) => l,
            None => {
                return Err(DbError::KeyNotFound(key));
            },
        };
        let ghost lseq = rids@;
        let mut out: Vec<Vec<Option<i64>>> = Vec::new();
        let mut i: usize = 0;
        while i < rids.len()
            invariant
                self.wf(),
                t == self.table,
                n == spec_hops(relative_version),
                relative_version != i64::MIN,
                search_key_index < t.spec_num_columns(),
                projected_columns_index@.len() == t.spec_num_columns(),
                i <= lseq.len(),
                rids@ == lseq,
                spec_find(t.index_view(search_key_index as int), key) == Some(lseq),
                forall|p: int| 0 <= p < i ==> !spec_deleted(t.j(), lseq[p] as int)
                    || relative_version >= 0,
                out@.len() == spec_select_version(
                    t,
                    lseq.take(i as int),
                    projected_columns_index@,
                    n,
                    0,
                ).len(),
                forall|p: int|
                    0 <= p < out@.len() ==> (#[trigger] out@[p])@ == spec_select_version(
                        t,
                        lseq.take(i as int),
                        projected_columns_index@,
                        n,
                        0,
                    )[p],
            decreases lseq.len() - i,
        {
            let rid = rids[i];
            proof {
                assert(t.secondaries_ok());
                assert(match spec_find(t.index_view(search_key_index as int), key) {
                    Some(l) => forall|p: int|
                        0 <= p < l.len() ==> 0 <= #[trigger] l[p] < t.j().len() && t.j()[
                            l[p] as int].base,
                    None => true,
                });
                assert(spec_find(t.index_view(search_key_index as int), key) == Some(lseq));
                assert(rid == lseq[i as int]);
                assert(0 <= rid < t.j().len() && t.j()[rid as int].base);
                lemma_select_version_take_step(t, lseq, projected_columns_index@, n, i as int);
            }
            let deleted = match self.table.is_deleted(rid) {
                Ok(d) => d,
                Err(_) => {
                    proof {
                        assert(false);
                    }
                    false
                },
            };
            if deleted && relative_version < 0 {
                return Err(DbError::KeyNotFound(key));
            }
            let row = match self.table.read_version_projected(
                projected_columns_index,
                rid,
                relative_version,
            ) {
                Ok(row) => row,
                Err(_) => {
                    proof {
                        assert(false);
                    }
                    Vec::new()
                },
            };
            out.push(row);
            i = i + 1;
        }
        proof {
            assert(lseq.take(lseq.len() as int) =~= lseq);
        }
        Ok(out)
    }

    /// Updates the row keyed by `key`: non-null delta columns replace the
    /// current values. A missing key reports `false`; a delta that writes
    /// the primary-key column is rejected with `DuplicateKey`.
    pub fn update(&mut self, key: i64, record: Vec<Option<i64>>) -> (r: Result<bool, DbError>)
        requires
            old(self).wf(),
            record@.len() == old(self).table.spec_num_columns(),
            old(self).table.record_count() + 1 < 0x4000_0000,
        ensures
            final(self).wf(),
            final(self).table.same_config(old(self).table),
            spec_find(old(self).table.primary(), key) is None ==> r == Ok::<bool, DbError>(false)
                && final(self).table.unchanged_state(old(self).table),
            spec_find(old(self).table.primary(), key) is Some && record@[old(
                self,
            ).table.spec_key_index()] is Some ==> r == Err::<bool, DbError>(
                DbError::DuplicateKey(key),
            ) && final(self).table.unchanged_state(old(self).table),
            spec_find(old(self).table.primary(), key) is Some && record@[old(
                self,
            ).table.spec_key_index()] is None ==> {
                let b = spec_find(old(self).table.primary(), key)->Some_0[0] as int;
                let nr = old(self).table.record_count();
                &&& r == Ok::<bool, DbError>(true)
                &&& final(self).table.record_count() == nr + 1
                &&& resolve_latest(final(self).table.j(), b) == apply_delta(
                    resolve_latest(old(self).table.j(), b),
                    record@,
                )
                &&& !spec_deleted(final(self).table.j(), b)
                &&& forall|x: int|
                    0 <= x < nr ==> (#[trigger] final(self).table.j()[x]).base == old(
                        self,
                    ).table.j()[x].base && final(self).table.j()[x].vals == old(self).table.j()[
                        x].vals
                &&& !final(self).table.j()[nr].base
                &&& final(self).table.j()[nr].back == b
                &&& final(self).table.j()[nr].vals == record@
                &&& final(self).table.j()[nr].ind == old(self).table.j()[b].ind
                &&& final(self).table.j()[nr].schema is Some
                &&& forall|i: int|
                    0 <= i < old(self).table.spec_num_columns() ==> #[trigger] mask_has(
                        final(self).table.j()[nr].schema->Some_0,
                        i,
                    ) == (record@[i] is Some)
                &&& final(self).table.j()[b].ind == nr
                &&& forall|n: nat|
                    #[trigger] resolve_version(final(self).table.j(), b, n + 1)
                        == resolve_version(old(self).table.j(), b, n)
                &&& forall|k2: i64|
                    #[trigger] spec_find(final(self).table.primary(), k2) == spec_find(
                        old(self).table.primary(),
                        k2,
                    )
                &&& final(self).table.retired_keys() == old(self).table.retired_keys()
                &&& forall|b2: int|
                    0 <= b2 < nr && b2 != b && (#[trigger] old(self).table.j()[b2]).base
                        ==> resolve_latest(final(self).table.j(), b2) == resolve_latest(
                        old(self).table.j(),
                        b2,
                    ) && spec_deleted(final(self).table.j(), b2) == spec_deleted(
                        old(self).table.j(),
                        b2,
                    )
                &&& forall|c: int, v: i64|
                    0 <= c < old(self).table.spec_num_columns() && c != old(
                        self,
                    ).table.spec_key_index() && record@[c] is None ==> #[trigger] spec_find(
                        final(self).table.index_view(c),
                        v,
                    ) == spec_find(old(self).table.index_view(c), v)
                &&& forall|c: int, v: i64|
                    0 <= c < old(self).table.spec_num_columns() && c != old(
                        self,
                    ).table.spec_key_index() && record@[c] is Some ==> #[trigger] spec_find(
                        final(self).table.index_view(c),
                        v,
                    ) == refiled_find(
                        spec_find(old(self).table.index_view(c), v),
                        resolve_latest(old(self).table.j(), b)[c],
                        record@[c],
                        b as i64,
                        v,
                    )
            },
    {
        self.table.update_record(key, record)
    }

    /// Logically deletes the row keyed by `key`: a tombstone tail is
    /// appended and the key leaves the indices forever. Deleting a missing
    /// or already deleted key fails with `KeyNotFound`.
    pub fn delete(&mut self, key: i64) -> (r: Result<bool, DbError>)
        requires
            old(self).wf(),
            old(self).table.record_count() + 1 < 0x4000_0000,
        ensures
            final(self).wf(),
            final(self).table.same_config(old(self).table),
            spec_find(old(self).table.primary(), key) is None ==> r == Err::<bool, DbError>(
                DbError::KeyNotFound(key),
            ) && final(self).table.unchanged_state(old(self).table),
            spec_find(old(self).table.primary(), key) is Some ==> {
                let b = spec_find(old(self).table.primary(), key)->Some_0[0] as int;
                let nr = old(self).table.record_count();
                &&& r == Ok::<bool, DbError>(true)
                &&& final(self).table.record_count() == nr + 1
                &&& spec_deleted(final(self).table.j(), b)
                &&& resolve_latest(final(self).table.j(), b) == resolve_latest(
                    old(self).table.j(),
                    b,
                )
                &&& forall|x: int|
                    0 <= x < nr ==> (#[trigger] final(self).table.j()[x]).base == old(
                        self,
                    ).table.j()[x].base && final(self).table.j()[x].vals == old(self).table.j()[
                        x].vals
                &&& !final(self).table.j()[nr].base
                &&& final(self).table.j()[nr].back == b
                &&& final(self).table.j()[nr].ind == old(self).table.j()[b].ind
                &&& final(self).table.j()[nr].schema is None
                &&& final(self).table.j()[b].ind == nr
                &&& forall|n: nat|
                    #[trigger] resolve_version(final(self).table.j(), b, n + 1)
                        == resolve_version(old(self).table.j(), b, n)
                &&& spec_find(final(self).table.primary(), key) is None
                &&& forall|k2: i64|
                    k2 != key ==> #[trigger] spec_find(final(self).table.primary(), k2)
                        == spec_find(old(self).table.primary(), k2)
                &&& final(self).table.retired_keys() == old(self).table.retired_keys().push(key)
                &&& forall|b2: int|
                    0 <= b2 < nr && b2 != b && (#[trigger] old(self).table.j()[b2]).base
                        ==> resolve_latest(final(self).table.j(), b2) == resolve_latest(
                        old(self).table.j(),
                        b2,
                    ) && spec_deleted(final(self).table.j(), b2) == spec_deleted(
                        old(self).table.j(),
                        b2,
                    )
                &&& forall|c2: int, v: i64|
                    0 <= c2 < old(self).table.spec_num_columns() && c2 != old(
                        self,
                    ).table.spec_key_index() ==> #[trigger] spec_find(
                        final(self).table.index_view(c2),
                        v,
                    ) == refiled_find(
                        spec_find(old(self).table.index_view(c2), v),
                        resolve_latest(old(self).table.j(), b)[c2],
                        None,
                        b as i64,
                        v,
                    )
            },
    {
        self.table.delete_record(key)
    }

    /// Sums `col` over the rows whose keys lie in `[start_range,
    /// end_range]`, 64-bit wrapping. An empty key range fails with
    /// `KeyNotFound`; a contributing null cell fails with `NullValue`.
    #[verifier::loop_isolation(false)]
    pub fn sum(&self, start_range: i64, end_range: i64, col: usize) -> (r: Result<i64, DbError>)
        requires
            self.wf(),
            col < self.table.spec_num_columns(),
        ensures
            ({
                let l = spec_range(self.table.primary(), start_range, end_range);
                if l.len() == 0 {
                    r == Err::<i64, DbError>(DbError::KeyNotFound(start_range))
                } else if !all_present(self.table, l, col as int) {
                    r == Err::<i64, DbError>(DbError::NullValue(col))
                } else {
                    r == Ok::<i64, DbError>(wrap_sum(self.table, l, col as int))
                }
            }),
    {
        let ghost t = self.table;
        let rids = match self.table.indices[self.key_index_of()].locate_range(
            start_range,
            end_range,
        ) {
            Some(l) => l,
            None => {
                return Err(DbError::KeyNotFound(start_range));
            },
        };
        let ghost lseq = rids@;
        proof {
            crate::table::lemma_primary_range_live(t, start_range, end_range);
        }
        let mut acc: i64 = 0;
        let mut i: usize = 0;
        while i < rids.len()
            invariant
                i <= lseq.len(),
                rids@ == lseq,
                acc == wrap_sum_to(t, lseq, col as int, i as int),
                forall|p: int|
                    0 <= p < i ==> (#[trigger] resolve_latest(t.j(), lseq[p] as int))[
                        col as int] is Some,
            decreases lseq.len() - i,
        {
            let rid = rids[i];
            proof {
                assert(0 <= rid < t.j().len() && t.j()[rid as int].base && !spec_deleted(
                    t.j(),
                    rid as int,
                ));
            }
            let deleted = match self.table.is_deleted(rid) {
                Ok(d) => d,
                Err(_) => {
                    proof {
                        assert(false);
                    }
                    false
                },
            };
            if !deleted {
                let v = match self.table.read_latest_single(rid, col) {
                    Ok(v) => v,
                    Err(_) => {
                        proof {
                            assert(false);
                        }
                        None
                    },
                };
                match v {
                    Some(val) => {
                        acc = acc.wrapping_add(val);
                    },
                    None => {
                        return Err(DbError::NullValue(col));
                    },
                }
            }
            i = i + 1;
        }
        Ok(acc)
    }

    /// Sums `col` over the keys in range, each row read as of
    /// `|relative_version|` chain hops back, 64-bit wrapping.
    #[verifier::loop_isolation(false)]
    pub fn sum_version(
        &self,
        start_range: i64,
        end_range: i64,
        col: usize,
        relative_version: i64,
    ) -> (r: Result<i64, DbError>)
        requires
            self.wf(),
            col < self.table.spec_num_columns(),
            relative_version != i64::MIN,
        ensures
            ({
                let l = spec_range(self.table.primary(), start_range, end_range);
                let n = spec_hops(relative_version);
                if l.len() == 0 {
                    r == Err::<i64, DbError>(DbError::KeyNotFound(start_range))
                } else if !all_present_version(self.table, l, col as int, n) {
                    r == Err::<i64, DbError>(DbError::NullValue(col))
                } else {
                    r == Ok::<i64, DbError>(wrap_sum_version(self.table, l, col as int, n))
                }
            }),
    {
        let ghost t = self.table;
        let ghost n = spec_hops(relative_version);
        let rids = match self.table.indices[self.key_index_of()].locate_range(
            start_range,
            end_range,
        ) {
            Some(l) => l,
            None => {
                return Err(DbError::KeyNotFound(start_range));
            },
        };
        let ghost lseq = rids@;
        proof {
            crate::table::lemma_primary_range_live(t, start_range, end_range);
        }
        let mut acc: i64 = 0;
        let mut i: usize = 0;
        while i < rids.len()
            invariant
                i <= lseq.len(),
                rids@ == lseq,
                acc == wrap_sum_version_to(t, lseq, col as int, n, i as int),
                forall|p: int|
                    0 <= p < i ==> (#[trigger] resolve_version(t.j(), lseq[p] as int, n))[
                        col as int] is Some,
            decreases lseq.len() - i,
        {
            let rid = rids[i];
            proof {
                assert(0 <= rid < t.j().len() && t.j()[rid as int].base);
            }
            let v = match self.table.read_version_single(rid, col, relative_version) {
                Ok(v) => v,
                Err(_) => {
                    proof {
                        assert(false);
                    }
                    None
                },
            };
            match v {
                Some(val) => {
                    acc = acc.wrapping_add(val);
                },
                None => {
                    return Err(DbError::NullValue(col));
                },
            }
            i = i + 1;
        }
        Ok(acc)
    }

    /// Adds one to `col` of the row keyed by `key`. Rejects a missing key
    /// with `KeyNotFound`, a null cell with `NullValue`, and the
    /// primary-key column (through the update path) with `DuplicateKey`.
    #[verifier::loop_isolation(false)]
    pub fn increment(&mut self, key: i64, col: usize) -> (r: Result<bool, DbError>)
        requires
            old(self).wf(),
            old(self).table.record_count() + 1 < 0x4000_0000,
            col < old(self).table.spec_num_columns() && spec_find(
                old(self).table.primary(),
                key,
            ) is Some && resolve_latest(
                old(self).table.j(),
                spec_find(old(self).table.primary(), key)->Some_0[0] as int,
            )[col as int] is Some ==> resolve_latest(
                old(self).table.j(),
                spec_find(old(self).table.primary(), key)->Some_0[0] as int,
            )[col as int]->Some_0 < i64::MAX,
        ensures
            final(self).wf(),
            final(self).table.same_config(old(self).table),
            col >= old(self).table.spec_num_columns() ==> r == Err::<bool, DbError>(
                DbError::NullValue(col),
            ) && final(self).table.unchanged_state(old(self).table),
            col < old(self).table.spec_num_columns() && spec_find(old(self).table.primary(), key)
                is None ==> r == Err::<bool, DbError>(DbError::KeyNotFound(key))
                && final(self).table.unchanged_state(old(self).table),
            col < old(self).table.spec_num_columns() && spec_find(old(self).table.primary(), key)
                is Some && resolve_latest(
                old(self).table.j(),
                spec_find(old(self).table.primary(), key)->Some_0[0] as int,
            )[col as int] is None ==> r == Err::<bool, DbError>(DbError::NullValue(col))
                && final(self).table.unchanged_state(old(self).table),
            col < old(self).table.spec_num_columns() && spec_find(old(self).table.primary(), key)
                is Some && resolve_latest(
                old(self).table.j(),
                spec_find(old(self).table.primary(), key)->Some_0[0] as int,
            )[col as int] is Some && col == old(self).table.spec_key_index() ==> r == Err::<
                bool,
                DbError,
            >(DbError::DuplicateKey(key)) && final(self).table.unchanged_state(old(self).table),
            col < old(self).table.spec_num_columns() && spec_find(old(self).table.primary(), key)
                is Some && resolve_latest(
                old(self).table.j(),
                spec_find(old(self).table.primary(), key)->Some_0[0] as int,
            )[col as int] is Some && col != old(self).table.spec_key_index() ==> {
                let b = spec_find(old(self).table.primary(), key)->Some_0[0] as int;
                let v = resolve_latest(old(self).table.j(), b)[col as int]->Some_0;
                &&& r == Ok::<bool, DbError>(true)
                &&& resolve_latest(final(self).table.j(), b) == resolve_latest(
                    old(self).table.j(),
                    b,
                ).update(col as int, Some((v + 1) as i64))
                &&& !spec_deleted(final(self).table.j(), b)
                &&& forall|k2: i64|
                    #[trigger] spec_find(final(self).table.primary(), k2) == spec_find(
                        old(self).table.primary(),
                        k2,
                    )
            },
    {
        let ghost t = old(self).table;
        if col >= self.table.num_columns {
            return Err(DbError::NullValue(col));
        }
        let rid = match self.table.rid_for_unique_key(key) {
            Ok(rid) => rid,
            Err(e) => {
                return Err(e);
            },
        };
        proof {
            assert(0 <= rid < t.j().len() && t.j()[rid as int].base);
        }
        let cur = match self.table.read_latest_single(rid, col) {
            Ok(v) => v,
            Err(_) => {
                proof {
                    assert(false);
                }
                None
            },
        };
        let base_val = match cur {
            Some(v) => v,
            None => {
                return Err(DbError::NullValue(col));
            },
        };
        let mut record: Vec<Option<i64>> = Vec::new();
        let mut c: usize = 0;
        while c < self.table.num_columns
            invariant
                c <= self.table.spec_num_columns(),
                record@.len() == c,
                forall|x: int| 0 <= x < c ==> record@[x] == (if x == col as int {
                    Some((base_val + 1) as i64)
                } else {
                    None::<i64>
                }),
                base_val < i64::MAX,
                self == old(self),
                col < self.table.spec_num_columns(),
            decreases self.table.spec_num_columns() - c,
        {
            if c == col {
                record.push(Some(base_val + 1));
            } else {
                record.push(None);
            }
            c = c + 1;
        }
        let r = self.table.update_record(key, record);
        proof {
            if col != t.spec_key_index() {
                let b = spec_find(t.primary(), key)->Some_0[0] as int;
                t.lemma_chain_ok();
                assert(crate::table::rec_wf(t.j(), b, t.spec_num_columns()));
                if t.j()[b].ind != b {
                    crate::table::lemma_resolve_len(t.j(), t.j()[b].ind, t.spec_num_columns());
                }
                assert(resolve_latest(t.j(), b).len() == t.spec_num_columns());
                assert(apply_delta(resolve_latest(t.j(), b), record@) =~= resolve_latest(
                    t.j(),
                    b,
                ).update(col as int, Some((base_val + 1) as i64)));
            }
        }
        r
    }

    /// The primary-key column's position.
    fn key_index_of(&self) -> (k: usize)
        requires
            self.wf(),
        ensures
            k as int == self.table.spec_key_index(),
            k < self.table.spec_num_columns(),
    {
        self.table.key_index
    }
}

/// Unfolding one step of the selected-row list as the scan advances.
proof fn lemma_select_take_step(t: Table, l: Seq<i64>, mask: Seq<i64>, i: int)
    requires
        0 <= i < l.len(),
    ensures
        spec_deleted(t.j(), l[i] as int) ==> spec_select(t, l.take(i + 1), mask, 0) == spec_select(
            t,
            l.take(i),
            mask,
            0,
        ),
        !spec_deleted(t.j(), l[i] as int) ==> spec_select(t, l.take(i + 1), mask, 0)
            == spec_select(t, l.take(i), mask, 0) + seq![
            mask_apply(resolve_latest(t.j(), l[i] as int), mask),
        ],
{
    lemma_select_take_step_from(t, l, mask, i, 0);
}

proof fn lemma_select_take_step_from(t: Table, l: Seq<i64>, mask: Seq<i64>, i: int, s: int)
    requires
        0 <= s <= i < l.len(),
    ensures
        spec_deleted(t.j(), l[i] as int) ==> spec_select(t, l.take(i + 1), mask, s) == spec_select(
            t,
            l.take(i),
            mask,
            s,
        ),
        !spec_deleted(t.j(), l[i] as int) ==> spec_select(t, l.take(i + 1), mask, s)
            == spec_select(t, l.take(i), mask, s) + seq![
            mask_apply(resolve_latest(t.j(), l[i] as int), mask),
        ],
    decreases i - s,
{
    assert(l.take(i + 1)[s] == l[s]);
    if s < i {
        lemma_select_take_step_from(t, l, mask, i, s + 1);
        if !spec_deleted(t.j(), l[s] as int) {
            assert(seq![mask_apply(resolve_latest(t.j(), l[s] as int), mask)] + (spec_select(
                t,
                l.take(i),
                mask,
                s + 1,
            ) + seq![mask_apply(resolve_latest(t.j(), l[i] as int), mask)]) =~= (seq![
                mask_apply(resolve_latest(t.j(), l[s] as int), mask),
            ] + spec_select(t, l.take(i), mask, s + 1)) + seq![
                mask_apply(resolve_latest(t.j(), l[i] as int), mask),
            ]);
        }
    } else {
        assert(spec_select(t, l.take(i), mask, s) =~= Seq::<Seq<Option<i64>>>::empty());
        if !spec_deleted(t.j(), l[i] as int) {
            assert(spec_select(t, l.take(i + 1), mask, s + 1) =~= Seq::<
                Seq<Option<i64>>,
            >::empty());
            assert(spec_select(t, l.take(i + 1), mask, s) =~= Seq::<Seq<Option<i64>>>::empty()
                + seq![mask_apply(resolve_latest(t.j(), l[i] as int), mask)]);
        } else {
            assert(spec_select(t, l.take(i + 1), mask, s + 1) =~= Seq::<
                Seq<Option<i64>>,
            >::empty());
            assert(spec_select(t, l.take(i + 1), mask, s) =~= Seq::<Seq<Option<i64>>>::empty());
        }
    }
}

/// Unfolding one step of the version-selected-row list as the scan
/// advances.
proof fn lemma_select_version_take_step(t: Table, l: Seq<i64>, mask: Seq<i64>, n: nat, i: int)
    requires
        0 <= i < l.len(),
    ensures
        spec_select_version(t, l.take(i + 1), mask, n, 0) == spec_select_version(
            t,
            l.take(i),
            mask,
            n,
            0,
        ) + seq![mask_apply(resolve_version(t.j(), l[i] as int, n), mask)],
{
    lemma_select_version_take_step_from(t, l, mask, n, i, 0);
}

proof fn lemma_select_version_take_step_from(
    t: Table,
    l: Seq<i64>,
    mask: Seq<i64>,
    n: nat,
    i: int,
    s: int,
)
    requires
        0 <= s <= i < l.len(),
    ensures
        spec_select_version(t, l.take(i + 1), mask, n, s) == spec_select_version(
            t,
            l.take(i),
            mask,
            n,
            s,
        ) + seq![mask_apply(resolve_version(t.j(), l[i] as int, n), mask)],
    decreases i - s,
{
    assert(l.take(i + 1)[s] == l[s]);
    if s < i {
        lemma_select_version_take_step_from(t, l, mask, n, i, s + 1);
        assert(seq![mask_apply(resolve_version(t.j(), l[s] as int, n), mask)] + (
        spec_select_version(t, l.take(i), mask, n, s + 1) + seq![
            mask_apply(resolve_version(t.j(), l[i] as int, n), mask),
        ]) =~= (seq![mask_apply(resolve_version(t.j(), l[s] as int, n), mask)]
            + spec_select_version(t, l.take(i), mask, n, s + 1)) + seq![
            mask_apply(resolve_version(t.j(), l[i] as int, n), mask),
        ]);
    } else {
        assert(spec_select_version(t, l.take(i), mask, n, s) =~= Seq::<
            Seq<Option<i64>>,
        >::empty());
        assert(spec_select_version(t, l.take(i + 1), mask, n, s + 1) =~= Seq::<
            Seq<Option<i64>>,
        >::empty());
        assert(spec_select_version(t, l.take(i + 1), mask, n, s) =~= Seq::<
            Seq<Option<i64>>,
        >::empty() + seq![mask_apply(resolve_version(t.j(), l[i] as int, n), mask)]);
    }
}

} // verus!
