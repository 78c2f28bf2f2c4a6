//! The table: owner of the base and tail page ranges, the page directory,
//! the record-identifier generator, and the per-column indices; home of the
//! lineage-resolution reads.
//!
//! A logical row is never materialized: its current value is the base
//! record's column values resolved against the chain of tail records that
//! later updates appended, newest wins per column. The whole history of
//! appended record versions is mirrored by a ghost journal, and every read
//! is specified against the journal's resolution.

use vstd::prelude::*;
use crate::error::DbError;
use crate::index::Index;
use crate::page_directory::PageDirectory;
use crate::page::PAGE_SIZE;
use crate::page_range::{PageRanges, PhysicalAddress, WhichRange, lemma_rank_step, nth_address, record_cell};

verus! {

/// Number of metadata pages appended after the data pages of a collection:
/// RID, indirection, schema encoding, and start time.
pub const NUM_META_PAGES: usize = 4;

/// Sizing hint for the page directory.
pub const PROJECTED_NUM_RECORDS: usize = 1200;

/// The ghost mirror of one appended record version.
pub ghost struct Rec {
    /// The data-column values this version carries.
    pub vals: Seq<Option<i64>>,
    /// The indirection pointer: for a base record, the newest tail of its
    /// chain (or itself while unmodified, mutated in place on each update);
    /// for a tail record, the previous version in the chain (immutable).
    pub ind: int,
    /// The change bitmask; `None` marks a tombstone tail. Base records
    /// carry an empty mask.
    pub schema: Option<i64>,
    /// The owning base record (a base record owns itself).
    pub back: int,
    pub base: bool,
    /// This record's rank in its range's append order.
    pub rank: int,
}

/// Whether bit `col` of the change bitmask `m` is set.
pub open spec fn mask_has(m: i64, col: int) -> bool {
    (m >> (col as u64)) & 1i64 == 1i64
}

/// One tail record applied on top of the state it superseded: columns the
/// tail claims take its values, the rest keep the older state. A tombstone
/// claims nothing.
pub open spec fn overlay(older: Seq<Option<i64>>, tvals: Seq<Option<i64>>, schema: Option<i64>) -> Seq<
    Option<i64>,
> {
    match schema {
        None => older,
        Some(m) => Seq::new(
            older.len(),
            |c: int|
                if 0 <= c < tvals.len() && mask_has(m, c) {
                    tvals[c]
                } else {
                    older[c]
                },
        ),
    }
}

/// Tail records always point at strictly older records, so chains are
/// acyclic and resolution terminates.
pub open spec fn chain_ok(j: Seq<Rec>) -> bool {
    forall|i: int| 0 <= i < j.len() && !(#[trigger] j[i]).base ==> 0 <= j[i].ind < i
}

/// The row state visible at chain position `cur`: the base values with
/// every tail from the oldest through `cur` applied, newest on top.
pub open spec fn resolve_from(j: Seq<Rec>, cur: int) -> Seq<Option<i64>>
    decreases cur when 0 <= cur < j.len() && chain_ok(j)
{
    if j[cur].base {
        j[cur].vals
    } else {
        overlay(resolve_from(j, j[cur].ind), j[cur].vals, j[cur].schema)
    }
}

/// The current value of the row whose base record is `b`.
pub open spec fn resolve_latest(j: Seq<Rec>, b: int) -> Seq<Option<i64>> {
    if j[b].ind == b {
        j[b].vals
    } else {
        resolve_from(j, j[b].ind)
    }
}

/// Whether the row whose base record is `b` is logically deleted: the
/// newest tail of its chain is a tombstone.
pub open spec fn spec_deleted(j: Seq<Rec>, b: int) -> bool {
    j[b].ind != b && j[j[b].ind].schema is None
}

/// The chain position reached from `cur` after up to `n` hops toward older
/// versions, stopping at the base.
pub open spec fn back_n(j: Seq<Rec>, cur: int, n: nat) -> int
    decreases n,
{
    if n == 0 || !(0 <= cur < j.len()) || j[cur].base {
        cur
    } else {
        back_n(j, j[cur].ind, (n - 1) as nat)
    }
}

/// The row state as of `n` versions before the current one.
pub open spec fn resolve_version(j: Seq<Rec>, b: int, n: nat) -> Seq<Option<i64>> {
    if j[b].ind == b {
        j[b].vals
    } else {
        let c = back_n(j, j[b].ind, n);
        if c == b {
            j[b].vals
        } else {
            resolve_from(j, c)
        }
    }
}

/// A projection: columns whose mask entry is 1 keep their value, the rest
/// read as absent.
pub open spec fn mask_apply(row: Seq<Option<i64>>, mask: Seq<i64>) -> Seq<Option<i64>> {
    Seq::new(row.len(), |c: int| if mask[c] == 1 { row[c] } else { None })
}

/// Well-formedness of one journal record: lengths, ownership, and chain
/// shape (tails point at strictly older members of the same chain).
pub open spec fn rec_wf(j: Seq<Rec>, i: int, ncols: int) -> bool {
    let r = j[i];
    &&& r.vals.len() == ncols
    &&& if r.base {
        &&& r.back == i
        &&& r.schema == Some(0i64)
        &&& (r.ind == i || (i < r.ind < j.len() && !j[r.ind].base && j[r.ind].back == i))
    } else {
        &&& 0 <= r.back < i
        &&& j[r.back].base
        &&& r.back <= r.ind < i
        &&& (r.ind == r.back || (!j[r.ind].base && j[r.ind].back == r.back))
    }
}

pub open spec fn journal_wf(j: Seq<Rec>, ncols: int) -> bool {
    forall|i: int| 0 <= i < j.len() ==> #[trigger] rec_wf(j, i, ncols)
}

/// No bit at or above `width` is set in the change bitmask `m`.
pub open spec fn mask_bounded(m: i64, width: int) -> bool {
    0 <= m < (1i64 << (width as u64))
}

pub struct Table {
    pub name: String,
    pub(crate) page_ranges: PageRanges,
    pub(crate) page_directory: PageDirectory,
    pub(crate) next_rid: i64,
    pub(crate) num_columns: usize,
    pub(crate) key_index: usize,
    pub(crate) indices: Vec<Index>,
    pub(crate) retired: Vec<i64>,
    pub(crate) journal: Ghost<Seq<Rec>>,
}

impl Table {
    /// The ghost journal: one entry per appended record version, indexed by
    /// record identifier.
    pub open(crate) spec fn j(self) -> Seq<Rec> {
        self.journal@
    }

    pub open(crate) spec fn spec_num_columns(self) -> int {
        self.num_columns as int
    }

    pub open(crate) spec fn spec_key_index(self) -> int {
        self.key_index as int
    }

    /// The entries of the index on `column`.
    pub open(crate) spec fn index_view(self, column: int) -> Seq<(i64, Seq<i64>)> {
        self.indices[column]@
    }

    /// The entries of the primary-key index.
    pub open(crate) spec fn primary(self) -> Seq<(i64, Seq<i64>)> {
        self.index_view(self.spec_key_index())
    }

    /// Keys whose rows were logically deleted; such a key is never usable
    /// again (no key recycling).
    pub open(crate) spec fn retired_keys(self) -> Seq<i64> {
        self.retired@
    }

    pub open(crate) spec fn spec_total(self) -> int {
        self.page_ranges.spec_total()
    }

    /// The range a record version lives in.
    pub open spec fn range_of(r: Rec) -> WhichRange {
        if r.base {
            WhichRange::Base
        } else {
            WhichRange::Tail
        }
    }

    /// The physical tie for one journal record: its address is committed in
    /// the page directory, and every one of its column cells reads back
    /// exactly the journal's value for it.
    pub open(crate) spec fn cell_ok_at(self, i: int) -> bool {
        let j = self.j();
        let total = self.spec_total();
        let r = j[i];
        let range = Self::range_of(r);
        let addr = nth_address(r.rank);
        &&& 0 <= r.rank < self.page_ranges.count_of(range)
        &&& self.page_directory.spec_get(i) == Some(addr)
        &&& forall|col: int|
            0 <= col < total ==> addr.offset < (#[trigger] self.page_ranges.col_view(
                col,
                addr.collection_num as int,
                range,
            )).len() && self.page_ranges.col_view(col, addr.collection_num as int, range)[
                addr.offset as int] == record_cell(r.vals, i as i64, r.ind, r.schema, col)
    }

    /// The physical tie, for every journal record.
    pub open(crate) spec fn cells_ok(self) -> bool {
        forall|i: int| 0 <= i < self.j().len() ==> #[trigger] self.cell_ok_at(i)
    }

    /// Distinct records of one range occupy distinct append ranks (and so
    /// distinct physical addresses).
    pub open(crate) spec fn ranks_distinct(self) -> bool {
        let j = self.j();
        forall|i: int, k: int|
            0 <= i < j.len() && 0 <= k < j.len() && i != k && (#[trigger] j[i]).base == (
            #[trigger] j[k]).base ==> j[i].rank != j[k].rank
    }

    /// The primary index holds exactly one record identifier per key, and
    /// it is a live (non-deleted) base record actually keyed by that value.
    pub open(crate) spec fn primary_ok(self) -> bool {
        let j = self.j();
        forall|k: i64|
            match #[trigger] crate::index::spec_find(self.primary(), k) {
                Some(l) => {
                    &&& l.len() == 1
                    &&& 0 <= l[0] < j.len()
                    &&& j[l[0] as int].base
                    &&& j[l[0] as int].vals[self.spec_key_index()] == Some(k)
                    &&& !spec_deleted(j, l[0] as int)
                },
                None => true,
            }
    }

    /// Secondary index entries always name valid base records.
    pub open(crate) spec fn secondaries_ok(self) -> bool {
        let j = self.j();
        forall|c: int, k: i64|
            0 <= c < self.spec_num_columns() ==> match #[trigger] crate::index::spec_find(
                self.index_view(c),
                k,
            ) {
                Some(l) => forall|p: int|
                    0 <= p < l.len() ==> 0 <= #[trigger] l[p] < j.len() && j[l[p] as int].base,
                None => true,
            }
    }

    pub open(crate) spec fn wf(self) -> bool {
        let j = self.j();
        &&& 1 <= self.spec_num_columns() <= 60
        &&& self.spec_key_index() < self.spec_num_columns()
        &&& self.spec_total() == self.spec_num_columns() + NUM_META_PAGES
        &&& self.page_ranges.wf()
        &&& self.next_rid as int == j.len()
        &&& j.len() < 0x4000_0000
        &&& self.page_ranges.count_of(WhichRange::Base) + self.page_ranges.count_of(
            WhichRange::Tail,
        ) == j.len()
        &&& journal_wf(j, self.spec_num_columns())
        &&& forall|i: int|
            0 <= i < j.len() && (#[trigger] j[i]).schema is Some ==> mask_bounded(
                j[i].schema->Some_0,
                self.spec_num_columns(),
            )
        &&& forall|i: int|
            0 <= i < j.len() && (#[trigger] j[i]).base ==> j[i].vals[self.spec_key_index()] is Some
        &&& self.indices@.len() == self.spec_num_columns()
        &&& forall|c: int| 0 <= c < self.spec_num_columns() ==> (#[trigger] self.indices@[c]).wf()
        &&& forall|x: int| x >= j.len() ==> self.page_directory.spec_get(x) is None
        &&& self.cells_ok()
        &&& self.ranks_distinct()
        &&& self.primary_ok()
        &&& self.secondaries_ok()
    }

    /// The physical address of a journal record is within the engine's
    /// page-id bounds.
    proof fn lemma_addr_ok(self, i: int)
        requires
            self.wf(),
            0 <= i < self.j().len(),
        ensures
            nth_address(self.j()[i].rank).wf(),
            nth_address(self.j()[i].rank).collection_num as int == self.j()[i].rank / (
            PAGE_SIZE as int),
            nth_address(self.j()[i].rank).offset as int == self.j()[i].rank % (PAGE_SIZE as int),
            self.page_ranges.cok(0, nth_address(self.j()[i].rank).collection_num as int),
            forall|col: int|
                0 <= col < self.spec_total() ==> self.page_ranges.cok(
                    col,
                    nth_address(self.j()[i].rank).collection_num as int,
                ),
    {
        let r = self.j()[i];
        let rank = r.rank;
        let range = Self::range_of(r);
        assert(self.cell_ok_at(i));
        assert(0 <= rank < self.page_ranges.count_of(range));
        self.page_ranges.lemma_wf_bounds();
        assert(self.page_ranges.count_of(range) < 0x4000_0000) by {
            if range is Base {
            } else {
            }
        }
        lemma_rank_step(rank);
        vstd::arithmetic::div_mod::lemma_div_is_ordered(rank, 0x4000_0000, PAGE_SIZE as int);
        self.page_ranges.lemma_collection_ok(rank / (PAGE_SIZE as int));
    }

    /// Well-formed journals keep chains acyclic.
    pub proof fn lemma_chain_ok(self)
        requires
            journal_wf(self.j(), self.spec_num_columns()),
        ensures
            chain_ok(self.j()),
    {
        let j = self.j();
        assert forall|i: int| 0 <= i < j.len() && !(#[trigger] j[i]).base implies 0 <= j[i].ind
            < i by {
            assert(rec_wf(j, i, self.spec_num_columns()));
        }
    }

    /// Creates an empty table of `num_columns` 64-bit integer columns whose
    /// primary key lives in column `key_index`.
    pub fn new(table_name: String, num_columns: usize, key_index: usize) -> (t: Table)
        requires
            1 <= num_columns <= 60,
            key_index < num_columns,
        ensures
            t.wf(),
            t.j().len() == 0,
            t.spec_num_columns() == num_columns,
            t.spec_key_index() == key_index,
            forall|c: int| 0 <= c < num_columns ==> (#[trigger] t.index_view(c)).len() == 0,
            t.retired_keys().len() == 0,
    {
        let mut indices: Vec<Index> = Vec::new();
        let mut c: usize = 0;
        while c < num_columns
            invariant
                c <= num_columns,
                indices@.len() == c,
                forall|i: int|
                    0 <= i < c ==> (#[trigger] indices@[i]).wf() && indices@[i]@.len() == 0,
            decreases num_columns - c,
        {
            indices.push(Index::new());
            c = c + 1;
        }
        Table {
            name: table_name,
            page_ranges: PageRanges::new(num_columns),
            page_directory: PageDirectory::new(),
            next_rid: 0,
            num_columns,
            key_index,
            indices,
            retired: Vec::new(),
            journal: Ghost(Seq::empty()),
        }
    }

    /// Reads one column cell of record version `rid` straight from its
    /// pages; the journal tie makes the result the journal's value. The
    /// caller knows from context which range the record lives in.
    fn read_cell_of(&self, rid: i64, col: usize, range: WhichRange) -> (v: Option<i64>)
        requires
            self.wf(),
            0 <= rid < self.j().len(),
            col < self.spec_total(),
            range == Self::range_of(self.j()[rid as int]),
        ensures
            v == record_cell(
                self.j()[rid as int].vals,
                rid,
                self.j()[rid as int].ind,
                self.j()[rid as int].schema,
                col as int,
            ),
    {
        proof {
            assert(self.cell_ok_at(rid as int));
        }
        let addr = match self.page_directory.get(rid) {
            Ok(a) => a,
            Err(_) => {
                proof {
                    assert(false);
                }
                PhysicalAddress { offset: 0, collection_num: 0 }
            },
        };
        let ghost r = self.j()[rid as int];
        proof {
            assert(self.cell_ok_at(rid as int));
            assert(addr == nth_address(r.rank));
            self.lemma_addr_ok(rid as int);
        }
        self.page_ranges.read_single(col, &addr, range)
    }

}

/// No column is claimed by an empty bitmask.
pub proof fn lemma_mask_zero()
    ensures
        forall|c: int| 0 <= c < 64 ==> !mask_has(0i64, c),
{
    assert forall|c: int| 0 <= c < 64 implies !mask_has(0i64, c) by {
        let cc = c as u64;
        assert((0i64 >> cc) & 1i64 == 0i64) by (bit_vector)
            requires
                cc < 64,
        ;
    }
}

/// A column is claimed by a union of bitmasks exactly when one of them
/// claims it.
pub proof fn lemma_mask_or(a: i64, b: i64)
    ensures
        forall|c: int| 0 <= c < 64 ==> #[trigger] mask_has(a | b, c) == (mask_has(a, c)
            || mask_has(b, c)),
{
    assert forall|c: int| 0 <= c < 64 implies #[trigger] mask_has(a | b, c) == (mask_has(a, c)
        || mask_has(b, c)) by {
        let cc = c as u64;
        assert((((a | b) >> cc) & 1i64 == 1i64) == (((a >> cc) & 1i64 == 1i64) || ((b >> cc)
            & 1i64 == 1i64))) by (bit_vector)
            requires
                cc < 64,
        ;
    }
}

/// The resolved state of a chain position has one value per data column.
pub proof fn lemma_resolve_len(j: Seq<Rec>, cur: int, ncols: int)
    requires
        journal_wf(j, ncols),
        0 <= cur < j.len(),
    ensures
        resolve_from(j, cur).len() == ncols,
    decreases cur,
{
    assert(rec_wf(j, cur, ncols));
    assert forall|i: int| 0 <= i < j.len() && !(#[trigger] j[i]).base implies 0 <= j[i].ind
        < i by {
        assert(rec_wf(j, i, ncols));
    }
    if !j[cur].base {
        lemma_resolve_len(j, j[cur].ind, ncols);
    }
}

impl Table {
    /// Reads the raw base-record column values of `rid`, with no chain
    /// resolution.
    pub fn read(&self, rid: i64) -> (r: Result<Vec<Option<i64>>, DbError>)
        requires
            self.wf(),
            0 <= rid < self.j().len() ==> self.j()[rid as int].base,
        ensures
            0 <= rid < self.j().len() ==> r is Ok && r->Ok_0@ == self.j()[rid as int].vals,
            !(0 <= rid < self.j().len()) ==> r == Err::<Vec<Option<i64>>, DbError>(
                DbError::RecordNotFound(rid),
            ),
    {
        if rid < 0 || rid >= self.next_rid {
            proof {
                if 0 <= rid < self.j().len() {
                    assert(false);
                }
            }
            return Err(DbError::RecordNotFound(rid));
        }
        Ok(self.read_base_row(rid))
    }

    /// Copies the base record's data columns out of its pages.
    #[verifier::loop_isolation(false)]
    fn read_base_row(&self, rid: i64) -> (row: Vec<Option<i64>>)
        requires
            self.wf(),
            0 <= rid < self.j().len(),
            self.j()[rid as int].base,
        ensures
            row@ == self.j()[rid as int].vals,
    {
        let ghost j = self.j();
        let mut row: Vec<Option<i64>> = Vec::new();
        let mut col: usize = 0;
        proof {
            assert(rec_wf(j, rid as int, self.spec_num_columns()));
        }
        while col < self.num_columns
            invariant
                self.wf(),
                0 <= rid < self.j().len(),
                self.j()[rid as int].base,
                col <= self.num_columns,
                self.j()[rid as int].vals.len() == self.spec_num_columns(),
                row@ == self.j()[rid as int].vals.take(col as int),
            decreases self.num_columns - col,
        {
            let v = self.read_cell_of(rid, col, WhichRange::Base);
            row.push(v);
            proof {
                assert(row@ =~= self.j()[rid as int].vals.take(col as int + 1));
            }
            col = col + 1;
        }
        proof {
            assert(row@ =~= self.j()[rid as int].vals);
        }
        row
    }

    /// The walk's bookkeeping: columns claimed by tails processed so far
    /// (plus those of the current tail below `col`) already show their
    /// final value; unclaimed columns still show the base value, and their
    /// final value is decided by the chain from `cur` down.
    pub open(crate) spec fn walk_inv(
        j: Seq<Rec>,
        rid: int,
        nd: int,
        row: Seq<Option<i64>>,
        full: Seq<Option<i64>>,
        claimed: i64,
        eff: i64,
        col: int,
        cur: int,
    ) -> bool {
        &&& forall|c: int|
            #![trigger mask_has(claimed, c)]
            0 <= c < nd && (mask_has(claimed, c) || (c < col && mask_has(eff, c))) ==> row[c]
                == full[c]
        &&& forall|c: int|
            #![trigger mask_has(claimed, c)]
            0 <= c < nd && !mask_has(claimed, c) && !(c < col && mask_has(eff, c)) ==> row[c]
                == j[rid].vals[c] && full[c] == resolve_from(j, cur)[c]
    }

    /// Resolves the row owned by base record `rid` as visible at chain
    /// position `start`: walks the chain from `start` toward the base,
    /// applying each tail's claimed columns newest-first, never revisiting
    /// a column a newer tail already claimed.
    #[verifier::loop_isolation(false)]
    #[verifier::rlimit(100)]
    #[verifier::spinoff_prover]
    fn resolve_at(&self, rid: i64, start: i64) -> (row: Vec<Option<i64>>)
        requires
            self.wf(),
            0 <= rid < self.j().len(),
            self.j()[rid as int].base,
            0 <= start < self.j().len(),
            !self.j()[start as int].base,
            self.j()[start as int].back == rid,
        ensures
            row@ == resolve_from(self.j(), start as int),
    {
        let ghost j = self.j();
        let ghost nd = self.spec_num_columns();
        let ghost full = resolve_from(j, start as int);
        proof {
            self.lemma_chain_ok();
            lemma_resolve_len(j, start as int, nd);
            lemma_mask_zero();
            assert(rec_wf(j, rid as int, nd));
            assert(j[rid as int].vals.len() == nd);
        }
        let mut row = self.read_base_row(rid);
        let mut cur: i64 = start;
        let mut claimed: i64 = 0;
        let mut done: bool = false;
        while !done
            invariant
                row@.len() == nd,
                !done ==> {
                    &&& 0 <= cur < j.len()
                    &&& !j[cur as int].base
                    &&& j[cur as int].back == rid
                    &&& Self::walk_inv(j, rid as int, nd, row@, full, claimed, 0, 0, cur as int)
                },
                done ==> forall|c: int| 0 <= c < nd ==> row@[c] == full[c],
            decreases (if done { 0int } else { cur as int + 1 }),
        {
            proof {
                assert(rec_wf(j, cur as int, nd));
                lemma_resolve_len(j, cur as int, nd);
                lemma_resolve_len(j, j[cur as int].ind, nd);
            }
            let ghost older = resolve_from(j, j[cur as int].ind);
            let sch = self.read_cell_of(cur, self.num_columns + 2, WhichRange::Tail);
            let eff: i64 = match sch {
                Some(m) => m,
                None => 0,
            };
            proof {
                assert(resolve_from(j, cur as int) == overlay(
                    older,
                    j[cur as int].vals,
                    j[cur as int].schema,
                ));
                assert forall|c: int|
                    0 <= c < nd && #[trigger] mask_has(eff, c) implies resolve_from(
                    j,
                    cur as int,
                )[c] == j[cur as int].vals[c] by {
                    if sch is None {
                        assert(!mask_has(0i64, c));
                    }
                }
                assert forall|c: int|
                    0 <= c < nd && !(#[trigger] mask_has(eff, c)) implies resolve_from(
                    j,
                    cur as int,
                )[c] == older[c] by {
                    if sch is None {
                    }
                }
            }
            let mut col: usize = 0;
            while col < self.num_columns
                invariant
                    col <= self.num_columns,
                    row@.len() == nd,
                    !done,
                    Self::walk_inv(j, rid as int, nd, row@, full, claimed, eff, col as int, cur as int),
                decreases self.num_columns - col,
            {
                let set_here = ((eff >> (col as u64)) & 1i64) == 1i64;
                let already = ((claimed >> (col as u64)) & 1i64) == 1i64;
                proof {
                    assert(set_here == mask_has(eff, col as int));
                    assert(already == mask_has(claimed, col as int));
                }
                let ghost row_prev = row@;
                if set_here && !already {
                    let v = self.read_cell_of(cur, col, WhichRange::Tail);
                    row.set(col, v);
                    proof {
                        assert(full[col as int] == resolve_from(j, cur as int)[col as int]);
                        assert(row@[col as int] == full[col as int]);
                    }
                }
                proof {
                    assert(Self::walk_inv(
                        j,
                        rid as int,
                        nd,
                        row@,
                        full,
                        claimed,
                        eff,
                        col as int + 1,
                        cur as int,
                    )) by {
                        assert forall|c: int|
                            #![trigger mask_has(claimed, c)]
                            0 <= c < nd && (mask_has(claimed, c) || (c < col + 1 && mask_has(
                                eff,
                                c,
                            ))) implies row@[c] == full[c] by {
                            if c != col as int {
                                assert(row@[c] == row_prev[c]);
                            }
                        }
                        assert forall|c: int|
                            #![trigger mask_has(claimed, c)]
                            0 <= c < nd && !mask_has(claimed, c) && !(c < col + 1 && mask_has(
                                eff,
                                c,
                            )) implies row@[c] == j[rid as int].vals[c] && full[c]
                            == resolve_from(j, cur as int)[c] by {
                            assert(row@[c] == row_prev[c]);
                        }
                    }
                }
                col = col + 1;
            }
            let ghost claimed_prev = claimed;
            proof {
                lemma_mask_or(claimed, eff);
            }
            claimed = claimed | eff;
            let nxt = self.read_cell_of(cur, self.num_columns + 1, WhichRange::Tail);
            let ghost cur_prev = cur as int;
            match nxt {
                Some(n) => {
                    proof {
                        assert(n as int == j[cur as int].ind);
                    }
                    if n == rid {
                        done = true;
                        proof {
                            assert(resolve_from(j, rid as int) == j[rid as int].vals);
                            assert forall|c: int| 0 <= c < nd implies row@[c] == full[c] by {
                                assert(mask_has(claimed, c) == (mask_has(claimed_prev, c)
                                    || mask_has(eff, c)));
                                if !mask_has(claimed, c) {
                                    assert(full[c] == resolve_from(j, cur_prev)[c]);
                                    assert(resolve_from(j, cur_prev)[c] == older[c]);
                                }
                            }
                        }
                    } else {
                        cur = n;
                        proof {
                            assert(!j[cur as int].base);
                            assert(j[cur as int].back == rid);
                            assert forall|c: int|
                                #![trigger mask_has(claimed, c)]
                                0 <= c < nd && (mask_has(claimed, c) || (c < 0 && mask_has(
                                    eff,
                                    c,
                                ))) implies row@[c] == full[c] by {
                                assert(mask_has(claimed, c) == (mask_has(claimed_prev, c)
                                    || mask_has(eff, c)));
                                if mask_has(claimed_prev, c) {
                                    assert(0 <= c < nd && (mask_has(claimed_prev, c) || (c
                                        < self.num_columns as int && mask_has(eff, c))));
                                    assert(row@[c] == full[c]);
                                } else {
                                    assert(mask_has(eff, c));
                                    assert(0 <= c < nd && (mask_has(claimed_prev, c) || (c
                                        < self.num_columns as int && mask_has(eff, c))));
                                    assert(row@[c] == full[c]);
                                }
                            }
                            assert forall|c: int|
                                #![trigger mask_has(claimed, c)]
                                0 <= c < nd && !mask_has(claimed, c) implies row@[c] == j[
                                rid as int].vals[c] && full[c] == resolve_from(j, cur as int)[
                                c] by {
                                assert(mask_has(claimed, c) == (mask_has(claimed_prev, c)
                                    || mask_has(eff, c)));
                                assert(full[c] == resolve_from(j, cur_prev)[c]);
                                assert(resolve_from(j, cur_prev)[c] == older[c]);
                            }
                        }
                    }
                },
                None => {
                    proof {
                        assert(false);
                    }
                    done = true;
                },
            }
        }
        proof {
            assert(row@ =~= full);
        }
        row
    }

    /// The current values of the row owned by base record `rid`: the base
    /// values with every later update applied, newest wins per column.
    pub fn read_latest(&self, rid: i64) -> (r: Result<Vec<Option<i64>>, DbError>)
        requires
            self.wf(),
            0 <= rid < self.j().len() ==> self.j()[rid as int].base,
        ensures
            0 <= rid < self.j().len() ==> r is Ok && r->Ok_0@ == resolve_latest(
                self.j(),
                rid as int,
            ),
            !(0 <= rid < self.j().len()) ==> r == Err::<Vec<Option<i64>>, DbError>(
                DbError::RecordNotFound(rid),
            ),
    {
        if rid < 0 || rid >= self.next_rid {
            return Err(DbError::RecordNotFound(rid));
        }
        let ghost j = self.j();
        proof {
            assert(rec_wf(j, rid as int, self.spec_num_columns()));
        }
        let ind_cell = self.read_cell_of(rid, self.num_columns + 1, WhichRange::Base);
        match ind_cell {
            Some(ind) => {
                proof {
                    assert(ind as int == j[rid as int].ind);
                }
                if ind == rid {
                    Ok(self.read_base_row(rid))
                } else {
                    Ok(self.resolve_at(rid, ind))
                }
            },
            None => {
                proof {
                    assert(false);
                }
                Err(DbError::RecordNotFound(rid))
            },
        }
    }

    /// The current value of one column of the row owned by `rid`, walking
    /// the chain only until the newest tail claiming that column.
    #[verifier::loop_isolation(false)]
    pub fn read_latest_single(&self, rid: i64, col: usize) -> (r: Result<Option<i64>, DbError>)
        requires
            self.wf(),
            col < self.spec_num_columns(),
            0 <= rid < self.j().len() ==> self.j()[rid as int].base,
        ensures
            0 <= rid < self.j().len() ==> r == Ok::<Option<i64>, DbError>(
                resolve_latest(self.j(), rid as int)[col as int],
            ),
            !(0 <= rid < self.j().len()) ==> r == Err::<Option<i64>, DbError>(
                DbError::RecordNotFound(rid),
            ),
    {
        if rid < 0 || rid >= self.next_rid {
            return Err(DbError::RecordNotFound(rid));
        }
        let ghost j = self.j();
        let ghost nd = self.spec_num_columns();
        let ghost goal = resolve_latest(j, rid as int);
        proof {
            self.lemma_chain_ok();
            assert(rec_wf(j, rid as int, nd));
        }
        let ind_cell = self.read_cell_of(rid, self.num_columns + 1, WhichRange::Base);
        let ind = match ind_cell {
            Some(i) => i,
            None => {
                proof {
                    assert(false);
                }
                rid
            },
        };
        if ind == rid {
            return Ok(self.read_cell_of(rid, col, WhichRange::Base));
        }
        let mut cur: i64 = ind;
        loop
            invariant
                self.wf(),
                j == self.j(),
                nd == self.spec_num_columns(),
                0 <= rid < j.len(),
                j[rid as int].base,
                col < nd,
                goal == resolve_latest(j, rid as int),
                0 <= cur < j.len(),
                !j[cur as int].base,
                j[cur as int].back == rid,
                goal[col as int] == resolve_from(j, cur as int)[col as int],
            decreases cur,
        {
            proof {
                assert(rec_wf(j, cur as int, nd));
                lemma_resolve_len(j, cur as int, nd);
                lemma_resolve_len(j, j[cur as int].ind, nd);
                assert(resolve_from(j, cur as int) == overlay(
                    resolve_from(j, j[cur as int].ind),
                    j[cur as int].vals,
                    j[cur as int].schema,
                ));
            }
            let sch = self.read_cell_of(cur, self.num_columns + 2, WhichRange::Tail);
            let eff: i64 = match sch {
                Some(m) => m,
                None => 0,
            };
            proof {
                if sch is None {
                    lemma_mask_zero();
                }
            }
            if ((eff >> (col as u64)) & 1i64) == 1i64 {
                proof {
                    assert(mask_has(eff, col as int));
                    if sch is None {
                        assert(!mask_has(0i64, col as int));
                        assert(false);
                    }
                    assert(resolve_from(j, cur as int)[col as int] == j[cur as int].vals[
                        col as int]);
                }
                return Ok(self.read_cell_of(cur, col, WhichRange::Tail));
            }
            proof {
                assert(!mask_has(eff, col as int));
                assert(resolve_from(j, cur as int)[col as int] == resolve_from(
                    j,
                    j[cur as int].ind,
                )[col as int]) by {
                    if sch is None {
                    }
                }
            }
            let nxt = self.read_cell_of(cur, self.num_columns + 1, WhichRange::Tail);
            let n = match nxt {
                Some(n) => n,
                None => {
                    proof {
                        assert(false);
                    }
                    rid
                },
            };
            if n == rid {
                proof {
                    assert(n as int == j[cur as int].ind);
                    assert(resolve_from(j, rid as int) == j[rid as int].vals);
                    assert(goal[col as int] == j[rid as int].vals[col as int]);
                }
                return Ok(self.read_cell_of(rid, col, WhichRange::Base));
            }
            proof {
                assert(n as int == j[cur as int].ind);
            }
            cur = n;
        }
    }

    /// The current row filtered through a 0/1 column mask: included columns
    /// keep their value, the rest read as absent.
    pub fn read_latest_projected(&self, projected: &Vec<i64>, rid: i64) -> (r: Result<
        Vec<Option<i64>>,
        DbError,
    >)
        requires
            self.wf(),
            projected@.len() == self.spec_num_columns(),
            0 <= rid < self.j().len() ==> self.j()[rid as int].base,
        ensures
            0 <= rid < self.j().len() ==> r is Ok && r->Ok_0@ == mask_apply(
                resolve_latest(self.j(), rid as int),
                projected@,
            ),
            !(0 <= rid < self.j().len()) ==> r == Err::<Vec<Option<i64>>, DbError>(
                DbError::RecordNotFound(rid),
            ),
    {
        let full = self.read_latest(rid)?;
        proof {
            self.lemma_chain_ok();
            if self.j()[rid as int].ind != rid as int {
                assert(rec_wf(self.j(), rid as int, self.spec_num_columns()));
                lemma_resolve_len(self.j(), self.j()[rid as int].ind, self.spec_num_columns());
            } else {
                assert(rec_wf(self.j(), rid as int, self.spec_num_columns()));
            }
        }
        Ok(project_row(&full, projected))
    }

    /// Whether the row owned by base record `rid` is logically deleted:
    /// its newest tail is a tombstone.
    pub fn is_deleted(&self, rid: i64) -> (r: Result<bool, DbError>)
        requires
            self.wf(),
            0 <= rid < self.j().len() ==> self.j()[rid as int].base,
        ensures
            0 <= rid < self.j().len() ==> r == Ok::<bool, DbError>(
                spec_deleted(self.j(), rid as int),
            ),
            !(0 <= rid < self.j().len()) ==> r == Err::<bool, DbError>(
                DbError::RecordNotFound(rid),
            ),
    {
        if rid < 0 || rid >= self.next_rid {
            return Err(DbError::RecordNotFound(rid));
        }
        let ghost j = self.j();
        proof {
            assert(rec_wf(j, rid as int, self.spec_num_columns()));
        }
        let ind_cell = self.read_cell_of(rid, self.num_columns + 1, WhichRange::Base);
        let ind = match ind_cell {
            Some(i) => i,
            None => {
                proof {
                    assert(false);
                }
                rid
            },
        };
        if ind == rid {
            return Ok(false);
        }
        proof {
            assert(ind as int == j[rid as int].ind);
            assert(!j[ind as int].base);
            assert(rec_wf(j, ind as int, self.spec_num_columns()));
        }
        let sch = self.read_cell_of(ind, self.num_columns + 2, WhichRange::Tail);
        proof {
            assert(sch == j[ind as int].schema);
            assert(spec_deleted(j, rid as int) == (j[ind as int].schema is None));
        }
        Ok(sch.is_none())
    }

    /// Walks `hops` steps from chain position `start` toward older
    /// versions, stopping early at the base record.
    #[verifier::loop_isolation(false)]
    fn hop_back(&self, rid: i64, start: i64, hops: i64) -> (c: i64)
        requires
            self.wf(),
            0 <= rid < self.j().len(),
            self.j()[rid as int].base,
            0 <= start < self.j().len(),
            !self.j()[start as int].base,
            self.j()[start as int].back == rid,
            hops >= 0,
        ensures
            c as int == back_n(self.j(), start as int, hops as nat),
            c == rid || (0 <= c < self.j().len() && !self.j()[c as int].base
                && self.j()[c as int].back == rid),
    {
        let ghost j = self.j();
        let ghost nd = self.spec_num_columns();
        let mut cur: i64 = start;
        let mut k: i64 = hops;
        proof {
            self.lemma_chain_ok();
        }
        while k > 0 && cur != rid
            invariant
                0 <= k <= hops,
                cur == rid || (0 <= cur < j.len() && !j[cur as int].base && j[cur as int].back
                    == rid),
                back_n(j, start as int, hops as nat) == back_n(j, cur as int, k as nat),
            decreases k,
        {
            proof {
                assert(rec_wf(j, cur as int, nd));
            }
            let nxt = self.read_cell_of(cur, self.num_columns + 1, WhichRange::Tail);
            let n = match nxt {
                Some(n) => n,
                None => {
                    proof {
                        assert(false);
                    }
                    rid
                },
            };
            proof {
                assert(n as int == j[cur as int].ind);
                assert(back_n(j, cur as int, k as nat) == back_n(j, n as int, (k - 1) as nat));
            }
            cur = n;
            k = k - 1;
        }
        proof {
            if cur == rid {
                assert(j[rid as int].base);
                assert(back_n(j, cur as int, k as nat) == cur as int);
            } else {
                assert(k == 0);
                assert(back_n(j, cur as int, 0nat) == cur as int);
            }
        }
        cur
    }

    /// The row as of `|relative_version|` chain hops before the newest
    /// version, filtered through a 0/1 column mask.
    pub fn read_version_projected(&self, projected: &Vec<i64>, rid: i64, relative_version: i64) -> (r:
        Result<Vec<Option<i64>>, DbError>)
        requires
            self.wf(),
            projected@.len() == self.spec_num_columns(),
            relative_version != i64::MIN,
            0 <= rid < self.j().len() ==> self.j()[rid as int].base,
        ensures
            0 <= rid < self.j().len() ==> r is Ok && r->Ok_0@ == mask_apply(
                resolve_version(
                    self.j(),
                    rid as int,
                    (if relative_version < 0 {
                        -(relative_version as int)
                    } else {
                        relative_version as int
                    }) as nat,
                ),
                projected@,
            ),
            !(0 <= rid < self.j().len()) ==> r == Err::<Vec<Option<i64>>, DbError>(
                DbError::RecordNotFound(rid),
            ),
    {
        if rid < 0 || rid >= self.next_rid {
            return Err(DbError::RecordNotFound(rid));
        }
        let ghost j = self.j();
        proof {
            assert(rec_wf(j, rid as int, self.spec_num_columns()));
            self.lemma_chain_ok();
        }
        let hops: i64 = if relative_version < 0 {
            -relative_version
        } else {
            relative_version
        };
        let ind_cell = self.read_cell_of(rid, self.num_columns + 1, WhichRange::Base);
        let ind = match ind_cell {
            Some(i) => i,
            None => {
                proof {
                    assert(false);
                }
                rid
            },
        };
        if ind == rid {
            let row = self.read_base_row(rid);
            return Ok(crate::table::project_row(&row, projected));
        }
        let c = self.hop_back(rid, ind, hops);
        if c == rid {
            let row = self.read_base_row(rid);
            Ok(crate::table::project_row(&row, projected))
        } else {
            let row = self.resolve_at(rid, c);
            proof {
                lemma_resolve_len(j, c as int, self.spec_num_columns());
            }
            Ok(crate::table::project_row(&row, projected))
        }
    }

    /// One column of the row as of `|relative_version|` chain hops before
    /// the newest version.
    pub fn read_version_single(&self, rid: i64, col: usize, relative_version: i64) -> (r: Result<
        Option<i64>,
        DbError,
    >)
        requires
            self.wf(),
            col < self.spec_num_columns(),
            relative_version != i64::MIN,
            0 <= rid < self.j().len() ==> self.j()[rid as int].base,
        ensures
            0 <= rid < self.j().len() ==> r == Ok::<Option<i64>, DbError>(
                resolve_version(
                    self.j(),
                    rid as int,
                    (if relative_version < 0 {
                        -(relative_version as int)
                    } else {
                        relative_version as int
                    }) as nat,
                )[col as int],
            ),
            !(0 <= rid < self.j().len()) ==> r == Err::<Option<i64>, DbError>(
                DbError::RecordNotFound(rid),
            ),
    {
        if rid < 0 || rid >= self.next_rid {
            return Err(DbError::RecordNotFound(rid));
        }
        let ghost j = self.j();
        proof {
            assert(rec_wf(j, rid as int, self.spec_num_columns()));
            self.lemma_chain_ok();
        }
        let hops: i64 = if relative_version < 0 {
            -relative_version
        } else {
            relative_version
        };
        let ind_cell = self.read_cell_of(rid, self.num_columns + 1, WhichRange::Base);
        let ind = match ind_cell {
            Some(i) => i,
            None => {
                proof {
                    assert(false);
                }
                rid
            },
        };
        if ind == rid {
            return Ok(self.read_cell_of(rid, col, WhichRange::Base));
        }
        let c = self.hop_back(rid, ind, hops);
        if c == rid {
            Ok(self.read_cell_of(rid, col, WhichRange::Base))
        } else {
            let row = self.resolve_at(rid, c);
            proof {
                lemma_resolve_len(j, c as int, self.spec_num_columns());
            }
            Ok(row[col])
        }
    }

    /// Pages per collection: the data columns plus the metadata columns.
    pub fn pages_per_collection(&self) -> (n: usize)
        requires
            self.wf(),
        ensures
            n as int == self.spec_total(),
    {
        self.num_columns + NUM_META_PAGES
    }

    /// How many records one range holds: `false` asks for the base range
    /// (one record per inserted row), `true` for the tail range (one per
    /// update or deletion).
    pub fn range_record_count(&self, tail: bool) -> (n: usize)
        requires
            self.wf(),
        ensures
            n as int == self.range_count(tail),
    {
        if tail {
            self.page_ranges.record_count(WhichRange::Tail)
        } else {
            self.page_ranges.record_count(WhichRange::Base)
        }
    }

    /// The on-disk byte stream for one physical page: column `column` of
    /// collection `collection_num` in the base or tail range, in the
    /// persisted format (eight big-endian bytes per non-null slot). Out of
    /// bounds, there is no such page.
    pub fn page_bytes(&self, column: usize, collection_num: usize, tail: bool) -> (r: Option<
        Vec<u8>,
    >)
        requires
            self.wf(),
        ensures
            column < self.spec_total() && collection_num <= 0x20_0000 ==> r is Some && r->Some_0@
                == crate::codec::spec_page_bytes(
                self.page_view(column as int, collection_num as int, tail),
            ),
            !(column < self.spec_total() && collection_num <= 0x20_0000) ==> r is None,
    {
        if column >= self.num_columns + NUM_META_PAGES || collection_num > 0x20_0000 {
            return None;
        }
        proof {
            self.page_ranges.lemma_wf_bounds();
            self.page_ranges.lemma_collection_ok(collection_num as int);
        }
        let range = if tail {
            WhichRange::Tail
        } else {
            WhichRange::Base
        };
        let slots = self.page_ranges.page_content(column, collection_num, range);
        Some(crate::codec::values_to_bytes(&slots))
    }

    /// How many record versions have been appended so far.
    pub fn num_records(&self) -> (n: i64)
        requires
            self.wf(),
        ensures
            n as int == self.record_count(),
    {
        self.next_rid
    }

    /// The record identifier the primary index holds for `key`.
    pub fn rid_for_unique_key(&self, key: i64) -> (r: Result<i64, DbError>)
        requires
            self.wf(),
        ensures
            match crate::index::spec_find(self.primary(), key) {
                Some(l) => r == Ok::<i64, DbError>(l[0]),
                None => r == Err::<i64, DbError>(DbError::KeyNotFound(key)),
            },
    {
        match self.indices[self.key_index].locate(key) {
            Some(l) => Ok(l[0]),
            None => Err(DbError::KeyNotFound(key)),
        }
    }
}

/// Applies a 0/1 projection mask to a row.
#[verifier::loop_isolation(false)]
pub fn project_row(row: &Vec<Option<i64>>, projected: &Vec<i64>) -> (r: Vec<Option<i64>>)
    requires
        projected@.len() == row@.len(),
    ensures
        r@ == mask_apply(row@, projected@),
{
    let mut r: Vec<Option<i64>> = Vec::new();
    let mut c: usize = 0;
    while c < row.len()
        invariant
            c <= row@.len(),
            projected@.len() == row@.len(),
            r@ == mask_apply(row@, projected@).take(c as int),
        decreases row@.len() - c,
    {
        if projected[c] == 1 {
            r.push(row[c]);
        } else {
            r.push(None);
        }
        proof {
            assert(r@ =~= mask_apply(row@, projected@).take(c as int + 1));
        }
        c = c + 1;
    }
    proof {
        assert(r@ =~= mask_apply(row@, projected@));
    }
    r
}

/// Extending the journal with a new record leaves the resolution of every
/// existing chain position unchanged.
pub proof fn lemma_resolve_push(j: Seq<Rec>, x: Rec, t: int)
    requires
        chain_ok(j),
        chain_ok(j.push(x)),
        0 <= t < j.len(),
    ensures
        resolve_from(j.push(x), t) == resolve_from(j, t),
    decreases t,
{
    let j2 = j.push(x);
    if j2[t].base {
    } else {
        lemma_resolve_push(j, x, j[t].ind);
    }
}

/// Repointing a base record's indirection leaves the resolution of every
/// chain position unchanged: resolution never reads a base record's
/// indirection.
pub proof fn lemma_resolve_base_ind(j: Seq<Rec>, b: int, j2: Seq<Rec>, t: int)
    requires
        chain_ok(j),
        chain_ok(j2),
        0 <= b < j.len(),
        j[b].base,
        j2.len() == j.len(),
        forall|x: int| 0 <= x < j.len() && x != b ==> j2[x] == j[x],
        j2[b].base == j[b].base,
        j2[b].vals == j[b].vals,
        j2[b].schema == j[b].schema,
        0 <= t < j.len(),
    ensures
        resolve_from(j2, t) == resolve_from(j, t),
    decreases t,
{
    if j[t].base {
        if t == b {
        }
    } else {
        assert(t != b);
        lemma_resolve_base_ind(j, b, j2, j[t].ind);
    }
}

/// Hops toward older versions land on the same chain positions after the
/// journal is extended and the owning base's indirection repointed: the hop
/// walk never reads a base record's indirection.
pub proof fn lemma_back_n_stable(j: Seq<Rec>, j2: Seq<Rec>, b: int, t: int, n: nat, ncols: int)
    requires
        journal_wf(j, ncols),
        0 <= b < j.len(),
        j[b].base,
        j2.len() >= j.len(),
        forall|x: int| 0 <= x < j.len() && x != b ==> j2[x] == j[x],
        j2[b].base,
        t == b || (0 <= t < j.len() && !j[t].base && j[t].back == b),
    ensures
        back_n(j2, t, n) == back_n(j, t, n),
        back_n(j, t, n) == b || (0 <= back_n(j, t, n) < j.len() && !j[back_n(j, t, n)].base
            && j[back_n(j, t, n)].back == b),
    decreases n,
{
    if n == 0 || t == b {
    } else {
        assert(rec_wf(j, t, ncols));
        assert(j2[t] == j[t]);
        let nxt = j[t].ind;
        if nxt == j[t].back {
            lemma_back_n_stable(j, j2, b, b, (n - 1) as nat, ncols);
        } else {
            lemma_back_n_stable(j, j2, b, nxt, (n - 1) as nat, ncols);
        }
    }
}

impl Table {
    /// Two tables with the same shape: column count, key column, pages per
    /// collection.
    pub open(crate) spec fn same_config(self, other: Table) -> bool {
        &&& self.spec_num_columns() == other.spec_num_columns()
        &&& self.spec_key_index() == other.spec_key_index()
        &&& self.spec_total() == other.spec_total()
    }

    /// No observable state change: journal, every index, and the retired
    /// keys all read the same.
    pub open(crate) spec fn unchanged_state(self, other: Table) -> bool {
        &&& self.j() == other.j()
        &&& forall|c: int|
            0 <= c < other.spec_num_columns() ==> #[trigger] self.index_view(c) == other.index_view(
                c,
            )
        &&& self.retired_keys() == other.retired_keys()
    }

    /// The record count so far; record identifiers run from zero up to it.
    pub open(crate) spec fn record_count(self) -> int {
        self.j().len() as int
    }

    /// Inserts a new row: allocates the next record identifier, enforces
    /// primary-key uniqueness (a duplicate or previously deleted key is
    /// rejected with a `false` result and no state change), files the key
    /// and every non-null other column in the indices, appends the base
    /// record, and registers it in the page directory.
    #[verifier::loop_isolation(false)]
    #[verifier::rlimit(100)]
    pub fn insert_record(&mut self, record: Vec<Option<i64>>) -> (r: Result<bool, DbError>)
        requires
            old(self).wf(),
            record@.len() == old(self).spec_num_columns(),
            old(self).record_count() + 1 < 0x4000_0000,
        ensures
            final(self).wf(),
            final(self).same_config(*old(self)),
            record@[old(self).spec_key_index()] is None ==> r == Err::<bool, DbError>(
                DbError::NullValue(old(self).spec_key_index() as usize),
            ) && final(self).unchanged_state(*old(self)),
            record@[old(self).spec_key_index()] is Some && {
                let k = record@[old(self).spec_key_index()]->Some_0;
                crate::index::spec_find(old(self).primary(), k) is Some || old(
                    self,
                ).retired_keys().contains(k)
            } ==> r == Ok::<bool, DbError>(false) && final(self).unchanged_state(*old(self)),
            record@[old(self).spec_key_index()] is Some && {
                let k = record@[old(self).spec_key_index()]->Some_0;
                crate::index::spec_find(old(self).primary(), k) is None && !old(
                    self,
                ).retired_keys().contains(k)
            } ==> {
                let k = record@[old(self).spec_key_index()]->Some_0;
                let rid = old(self).record_count();
                &&& r == Ok::<bool, DbError>(true)
                &&& final(self).record_count() == rid + 1
                &&& final(self).j()[rid].base
                &&& final(self).j()[rid].vals == record@
                &&& final(self).j()[rid].ind == rid
                &&& final(self).j()[rid].back == rid
                &&& final(self).j()[rid].schema == Some(0i64)
                &&& forall|x: int|
                    0 <= x < rid ==> (#[trigger] final(self).j()[x]).base == old(self).j()[x].base
                        && final(self).j()[x].vals == old(self).j()[x].vals
                &&& resolve_latest(final(self).j(), rid) == record@
                &&& !spec_deleted(final(self).j(), rid)
                &&& crate::index::spec_find(final(self).primary(), k) == Some(seq![rid as i64])
                &&& forall|k2: i64|
                    k2 != k ==> #[trigger] crate::index::spec_find(final(self).primary(), k2)
                        == crate::index::spec_find(old(self).primary(), k2)
                &&& forall|b: int|
                    0 <= b < rid && (#[trigger] old(self).j()[b]).base ==> resolve_latest(
                        final(self).j(),
                        b,
                    ) == resolve_latest(old(self).j(), b) && spec_deleted(final(self).j(), b)
                        == spec_deleted(old(self).j(), b) && final(self).j()[b].base
                &&& final(self).retired_keys() == old(self).retired_keys()
                &&& forall|c: int, v: i64|
                    0 <= c < old(self).spec_num_columns() && c != old(self).spec_key_index()
                        ==> #[trigger] crate::index::spec_find(final(self).index_view(c), v) == (
                    if record@[c] == Some(v) {
                        match crate::index::spec_find(old(self).index_view(c), v) {
                            Some(l) => Some(l.push(rid as i64)),
                            None => Some(seq![rid as i64]),
                        }
                    } else {
                        crate::index::spec_find(old(self).index_view(c), v)
                    })
            },
    {
        let ghost jold = self.j();
        let ghost nd = self.spec_num_columns();
        let key = match record[self.key_index] {
            Some(k) => k,
            None => {
                return Err(DbError::NullValue(self.key_index));
            },
        };
        let mut key_known = false;
        let mut i: usize = 0;
        while i < self.retired.len()
            invariant
                i <= self.retired@.len(),
                key_known == exists|p: int| 0 <= p < i && self.retired@[p] == key,
            decreases self.retired@.len() - i,
        {
            if self.retired[i] == key {
                key_known = true;
                proof {
                    assert(0 <= i < self.retired@.len() && self.retired@[i as int] == key);
                }
            }
            i = i + 1;
        }
        proof {
            assert(key_known == self.retired@.contains(key));
        }
        if key_known {
            return Ok(false);
        }
        let rid = self.next_rid;
        // Uniqueness check on the primary index; a duplicate leaves every
        // part of the table untouched.
        let ghost primary_old = old(self).primary();
        if self.indices[self.key_index].locate(key).is_some() {
            return Ok(false);
        }
        let mut pidx = self.indices.remove(self.key_index);
        let inserted = pidx.insert_unique(key, rid);
        self.indices.insert(self.key_index, pidx);
        proof {
            assert(inserted);
            assert(self.indices@ =~= old(self).indices@.update(
                self.spec_key_index(),
                self.indices@[self.spec_key_index()],
            ));
        }
        // File every other non-null column in its index.
        let ghost iv_after_primary = self.indices@;
        let mut c: usize = 0;
        while c < self.num_columns
            invariant
                c <= self.num_columns,
                self.indices@.len() == nd,
                forall|x: int| 0 <= x < nd ==> (#[trigger] self.indices@[x]).wf(),
                self.indices@[self.spec_key_index()] == iv_after_primary[self.spec_key_index()],
                forall|x: int, v: i64|
                    0 <= x < nd && x != self.spec_key_index() ==> #[trigger]
                    crate::index::spec_find(self.indices@[x]@, v) == (if x < c && record@[x]
                        == Some(v) {
                        match crate::index::spec_find(old(self).indices@[x]@, v) {
                            Some(l) => Some(l.push(rid)),
                            None => Some(seq![rid]),
                        }
                    } else {
                        crate::index::spec_find(old(self).indices@[x]@, v)
                    }),
                self.page_ranges == old(self).page_ranges,
                self.page_directory == old(self).page_directory,
                self.next_rid == old(self).next_rid,
                self.journal == old(self).journal,
                self.retired == old(self).retired,
                self.name == old(self).name,
                self.num_columns == old(self).num_columns,
                self.key_index == old(self).key_index,
            decreases self.num_columns - c,
        {
            if c != self.key_index {
                match record[c] {
                    Some(v) => {
                        let ghost iv_prev = self.indices@;
                        let mut idx = self.indices.remove(c);
                        idx.insert(v, rid);
                        self.indices.insert(c, idx);
                        proof {
                            assert(self.indices@ =~= iv_prev.update(
                                c as int,
                                self.indices@[c as int],
                            ));
                        }
                    },
                    None => {},
                }
            }
            c = c + 1;
        }
        // Append the base record and register it.
        let ghost ranges_before = self.page_ranges;
        proof {
            self.page_ranges.lemma_wf_bounds();
        }
        let address = self.page_ranges.append_base(record, rid);
        self.page_directory.add(rid, address);
        self.next_rid = self.next_rid + 1;
        let ghost newrec = Rec {
            vals: record@,
            ind: rid as int,
            schema: Some(0i64),
            back: rid as int,
            base: true,
            rank: ranges_before.count_of(WhichRange::Base),
        };
        proof {
            self.journal@ = jold.push(newrec);
        }
        proof {
            let j2 = self.j();
            let s0 = *old(self);
            // The journal stays well formed.
            assert forall|x: int| 0 <= x < j2.len() implies #[trigger] rec_wf(j2, x, nd) by {
                if x < jold.len() {
                    assert(rec_wf(jold, x, nd));
                } else {
                    assert(j2[x] == newrec);
                }
            }
            s0.lemma_chain_ok();
            assert(chain_ok(j2)) by {
                assert forall|x: int|
                    0 <= x < j2.len() && !(#[trigger] j2[x]).base implies 0 <= j2[x].ind
                    < x by {
                    assert(rec_wf(j2, x, nd));
                }
            }
            // Old chains resolve the same; the new row resolves to itself.
            assert forall|b: int|
                0 <= b < jold.len() && (#[trigger] jold[b]).base implies resolve_latest(j2, b)
                == resolve_latest(jold, b) && spec_deleted(j2, b) == spec_deleted(jold, b) by {
                assert(rec_wf(jold, b, nd));
                if jold[b].ind != b {
                    lemma_resolve_push(jold, newrec, jold[b].ind);
                }
            }
            assert(resolve_latest(j2, rid as int) == record@);
            // Every cell of every record still reads the journal's value.
            assert forall|x: int| 0 <= x < j2.len() implies #[trigger] self.cell_ok_at(x) by {
                if x < jold.len() {
                    assert(s0.cell_ok_at(x));
                    s0.lemma_addr_ok(x);
                    let r0 = jold[x];
                    let range = Self::range_of(r0);
                    let a0 = nth_address(r0.rank);
                    assert forall|col: int|
                        0 <= col < self.spec_total() implies a0.offset < (
                        #[trigger] self.page_ranges.col_view(
                            col,
                            a0.collection_num as int,
                            range,
                        )).len() && self.page_ranges.col_view(col, a0.collection_num as int, range)[
                        a0.offset as int] == record_cell(r0.vals, x as i64, r0.ind, r0.schema, col) by {
                        if range is Tail || a0.collection_num != address.collection_num {
                            assert(self.page_ranges.col_view(col, a0.collection_num as int, range)
                                == ranges_before.col_view(col, a0.collection_num as int, range));
                        } else {
                            assert(self.page_ranges.col_view(
                                col,
                                a0.collection_num as int,
                                WhichRange::Base,
                            ) == ranges_before.col_view(
                                col,
                                a0.collection_num as int,
                                WhichRange::Base,
                            ).push(record_cell(record@, rid, rid as int, Some(0i64), col)));
                        }
                    }
                } else {
                    assert(j2[x] == newrec);
                    assert(self.page_directory.spec_get(x) == Some(address));
                    assert(address == nth_address(newrec.rank));
                    assert forall|col: int|
                        0 <= col < self.spec_total() implies address.offset < (
                        #[trigger] self.page_ranges.col_view(
                            col,
                            address.collection_num as int,
                            WhichRange::Base,
                        )).len() && self.page_ranges.col_view(
                        col,
                        address.collection_num as int,
                        WhichRange::Base,
                    )[address.offset as int] == record_cell(
                        newrec.vals,
                        x as i64,
                        newrec.ind,
                        newrec.schema,
                        col,
                    ) by {
                        assert(self.page_ranges.col_view(
                            col,
                            address.collection_num as int,
                            WhichRange::Base,
                        ) == ranges_before.col_view(
                            col,
                            address.collection_num as int,
                            WhichRange::Base,
                        ).push(record_cell(record@, rid, rid as int, Some(0i64), col)));
                        assert(ranges_before.col_view(
                            col,
                            address.collection_num as int,
                            WhichRange::Base,
                        ).len() == address.offset as int);
                    }
                }
            }
            // Distinct ranks, bounded masks, key columns present.
            assert forall|x: int, y: int|
                0 <= x < j2.len() && 0 <= y < j2.len() && x != y && (#[trigger] j2[x]).base == (
                #[trigger] j2[y]).base implies j2[x].rank != j2[y].rank by {
                if x < jold.len() && y < jold.len() {
                } else if x < jold.len() {
                    assert(s0.cell_ok_at(x));
                } else {
                    assert(s0.cell_ok_at(y));
                }
            }
            assert(mask_bounded(0i64, nd)) by {
                let w = nd as u64;
                assert(0 <= 0i64 < (1i64 << w)) by (bit_vector)
                    requires
                        1 <= w <= 60,
                ;
            }
            // The primary index still holds exactly the live keys.
            assert forall|k2: i64|
                match #[trigger] crate::index::spec_find(self.primary(), k2) {
                    Some(l) => {
                        &&& l.len() == 1
                        &&& 0 <= l[0] < j2.len()
                        &&& j2[l[0] as int].base
                        &&& j2[l[0] as int].vals[self.spec_key_index()] == Some(k2)
                        &&& !spec_deleted(j2, l[0] as int)
                    },
                    None => true,
                } by {
                if k2 == key {
                } else {
                    match crate::index::spec_find(s0.primary(), k2) {
                        Some(l) => {
                            assert(rec_wf(jold, l[0] as int, nd));
                        },
                        None => {},
                    }
                }
            }
            // Secondary entries still name valid base records.
            assert forall|cx: int, v: i64|
                0 <= cx < nd implies match #[trigger] crate::index::spec_find(
                    self.index_view(cx),
                    v,
                ) {
                    Some(l) => forall|p: int|
                        0 <= p < l.len() ==> 0 <= #[trigger] l[p] < j2.len() && j2[
                            l[p] as int].base,
                    None => true,
                } by {
                if cx == self.spec_key_index() {
                } else {
                    match crate::index::spec_find(self.index_view(cx), v) {
                        Some(l) => {
                            assert forall|p: int|
                                0 <= p < l.len() implies 0 <= #[trigger] l[p] < j2.len() && j2[
                                l[p] as int].base by {
                                match crate::index::spec_find(s0.index_view(cx), v) {
                                    Some(l0) => {
                                        if record@[cx] == Some(v) {
                                            assert(l == l0.push(rid));
                                            if p < l0.len() {
                                                assert(l[p] == l0[p]);
                                            } else {
                                                assert(l[p] == rid);
                                            }
                                        } else {
                                            assert(l == l0);
                                        }
                                    },
                                    None => {
                                        assert(record@[cx] == Some(v) && l == seq![rid]);
                                    },
                                }
                            }
                        },
                        None => {},
                    }
                }
            }
            assert(self.wf());
        }
        Ok(true)
    }
}

impl Table {
    /// Appends a tail record for the row owned by base record `b` and
    /// repoints the base's indirection at it: the one mutation step shared
    /// by updates (a change bitmask) and deletions (a tombstone). The
    /// caller has already adjusted the indices; this step leaves them
    /// untouched.
    #[verifier::loop_isolation(false)]
    #[verifier::rlimit(100)]
    #[verifier::spinoff_prover]
    pub(crate) fn append_tail_record(&mut self, b: i64, data: Vec<Option<i64>>, schema: Option<i64>)
        requires
            old(self).wf(),
            0 <= b < old(self).record_count(),
            old(self).j()[b as int].base,
            data@.len() == old(self).spec_num_columns(),
            schema matches Some(m) ==> mask_bounded(m, old(self).spec_num_columns()),
            schema is None ==> forall|k2: i64|
                #[trigger] crate::index::spec_find(old(self).primary(), k2) matches Some(l) ==> l[0]
                    != b,
            old(self).record_count() + 1 < 0x4000_0000,
        ensures
            final(self).wf(),
            final(self).same_config(*old(self)),
            final(self).record_count() == old(self).record_count() + 1,
            forall|c: int|
                0 <= c < old(self).spec_num_columns() ==> #[trigger] final(self).index_view(c)
                    == old(self).index_view(c),
            final(self).retired_keys() == old(self).retired_keys(),
            forall|x: int|
                0 <= x < old(self).record_count() ==> (#[trigger] final(self).j()[x]).base == old(
                    self,
                ).j()[x].base && final(self).j()[x].vals == old(self).j()[x].vals,
            resolve_latest(final(self).j(), b as int) == overlay(
                resolve_latest(old(self).j(), b as int),
                data@,
                schema,
            ),
            spec_deleted(final(self).j(), b as int) == (schema is None),
            !final(self).j()[old(self).record_count()].base,
            final(self).j()[old(self).record_count()].back == b as int,
            final(self).j()[old(self).record_count()].vals == data@,
            final(self).j()[old(self).record_count()].ind == old(self).j()[b as int].ind,
            final(self).j()[old(self).record_count()].schema == schema,
            final(self).j()[b as int].ind == old(self).record_count(),
            forall|n: nat|
                #[trigger] resolve_version(final(self).j(), b as int, n + 1) == resolve_version(
                    old(self).j(),
                    b as int,
                    n,
                ),
            forall|b2: int|
                0 <= b2 < old(self).record_count() && b2 != b && (#[trigger] old(self).j()[
                b2]).base ==> resolve_latest(final(self).j(), b2) == resolve_latest(
                    old(self).j(),
                    b2,
                ) && spec_deleted(final(self).j(), b2) == spec_deleted(old(self).j(), b2),
    {
        let ghost jold = self.j();
        let ghost nd = self.spec_num_columns();
        proof {
            assert(self.cell_ok_at(b as int));
            assert(rec_wf(jold, b as int, nd));
            self.lemma_addr_ok(b as int);
            self.page_ranges.lemma_wf_bounds();
        }
        let base_addr = match self.page_directory.get(b) {
            Ok(a) => a,
            Err(_) => {
                proof {
                    assert(false);
                }
                PhysicalAddress { offset: 0, collection_num: 0 }
            },
        };
        let cur_ind = match self.read_cell_of(b, self.num_columns + 1, WhichRange::Base) {
            Some(i) => i,
            None => {
                proof {
                    assert(false);
                }
                b
            },
        };
        proof {
            assert(cur_ind as int == jold[b as int].ind);
        }
        let next = self.next_rid;
        let ghost ranges_before = self.page_ranges;
        let address = self.page_ranges.append_tail(data, next, cur_ind, schema);
        self.page_directory.add(next, address);
        let ghost ranges_mid = self.page_ranges;
        proof {
            assert forall|col: int|
                0 <= col < self.spec_total() implies #[trigger] ranges_mid.col_view(
                col,
                base_addr.collection_num as int,
                WhichRange::Base,
            ) == ranges_before.col_view(
                col,
                base_addr.collection_num as int,
                WhichRange::Base,
            ) by {
                assert(ranges_before.cok(col, base_addr.collection_num as int)) by {
                    old(self).lemma_addr_ok(b as int);
                }
            }
        }
        self.page_ranges.write_indirection(&base_addr, Some(next), WhichRange::Base);
        self.next_rid = self.next_rid + 1;
        let ghost tailrec = Rec {
            vals: data@,
            ind: cur_ind as int,
            schema,
            back: b as int,
            base: false,
            rank: ranges_before.count_of(WhichRange::Tail),
        };
        let ghost j2 = jold.push(tailrec);
        let ghost oldbase = jold[b as int];
        let ghost newbase = Rec {
            vals: oldbase.vals,
            ind: next as int,
            schema: oldbase.schema,
            back: oldbase.back,
            base: true,
            rank: oldbase.rank,
        };
        proof {
            self.journal@ = j2.update(b as int, newbase);
        }
        proof {
            let j3 = self.j();
            let s0 = *old(self);
            let ind_col = self.spec_total() - (NUM_META_PAGES as int) + 1;
            // The journal stays well formed.
            assert forall|x: int| 0 <= x < j3.len() implies #[trigger] rec_wf(j3, x, nd) by {
                if x < jold.len() {
                    assert(rec_wf(jold, x, nd));
                    if x == b {
                        assert(j3[next as int] == tailrec);
                    }
                } else {
                    assert(j3[x] == tailrec);
                    assert(rec_wf(jold, b as int, nd));
                }
            }
            s0.lemma_chain_ok();
            assert(chain_ok(j2)) by {
                assert forall|x: int|
                    0 <= x < j2.len() && !(#[trigger] j2[x]).base implies 0 <= j2[x].ind
                    < x by {
                    if x < jold.len() {
                        assert(rec_wf(jold, x, nd));
                    }
                }
            }
            assert(chain_ok(j3)) by {
                assert forall|x: int|
                    0 <= x < j3.len() && !(#[trigger] j3[x]).base implies 0 <= j3[x].ind
                    < x by {
                    assert(rec_wf(j3, x, nd));
                }
            }
            // Resolution: the updated row is the old row with the delta
            // applied; every other row is untouched.
            assert forall|t: int| 0 <= t < jold.len() implies #[trigger] resolve_from(j3, t)
                == resolve_from(jold, t) by {
                lemma_resolve_push(jold, tailrec, t);
                lemma_resolve_base_ind(j2, b as int, j3, t);
            }
            assert(resolve_latest(j3, b as int) == overlay(
                resolve_latest(jold, b as int),
                data@,
                schema,
            )) by {
                assert(j3[b as int].ind == next as int);
                assert(resolve_from(j3, next as int) == overlay(
                    resolve_from(j3, cur_ind as int),
                    data@,
                    schema,
                ));
                if cur_ind == b {
                    assert(resolve_from(j3, b as int) == jold[b as int].vals);
                } else {
                    assert(resolve_from(j3, cur_ind as int) == resolve_from(jold, cur_ind as int));
                }
            }
            assert(spec_deleted(j3, b as int) == (schema is None));
            assert forall|b2: int|
                0 <= b2 < jold.len() && b2 != b && (#[trigger] jold[b2]).base implies
                resolve_latest(j3, b2) == resolve_latest(jold, b2) && spec_deleted(j3, b2)
                == spec_deleted(jold, b2) by {
                assert(rec_wf(jold, b2, nd));
                if jold[b2].ind != b2 {
                    assert(resolve_from(j3, jold[b2].ind) == resolve_from(jold, jold[b2].ind));
                }
            }
            // Every cell of every record still reads the journal's value.
            assert forall|x: int| 0 <= x < j3.len() implies #[trigger] self.cell_ok_at(x) by {
                if x < jold.len() {
                    assert(s0.cell_ok_at(x));
                    s0.lemma_addr_ok(x);
                    let r0 = jold[x];
                    let range = Self::range_of(r0);
                    let a0 = nth_address(r0.rank);
                    assert(self.page_directory.spec_get(x) == Some(a0));
                    assert forall|col: int|
                        0 <= col < self.spec_total() implies a0.offset < (
                        #[trigger] self.page_ranges.col_view(
                            col,
                            a0.collection_num as int,
                            range,
                        )).len() && self.page_ranges.col_view(col, a0.collection_num as int, range)[
                        a0.offset as int] == record_cell(
                        j3[x].vals,
                        x as i64,
                        j3[x].ind,
                        j3[x].schema,
                        col,
                    ) by {
                        // Step one: the tail append touched only the new
                        // tail collection.
                        if range is Base || a0.collection_num != address.collection_num {
                            assert(ranges_mid.col_view(col, a0.collection_num as int, range)
                                == ranges_before.col_view(col, a0.collection_num as int, range));
                        } else {
                            assert(ranges_mid.col_view(
                                col,
                                a0.collection_num as int,
                                WhichRange::Tail,
                            ) == ranges_before.col_view(
                                col,
                                a0.collection_num as int,
                                WhichRange::Tail,
                            ).push(record_cell(data@, next, cur_ind as int, schema, col)));
                        }
                        // Step two: the indirection write touched only the
                        // base record's own indirection cell.
                        if range is Tail || a0.collection_num != base_addr.collection_num || col
                            != ind_col {
                            assert(self.page_ranges.col_view(col, a0.collection_num as int, range)
                                == ranges_mid.col_view(col, a0.collection_num as int, range));
                        } else {
                            assert(self.page_ranges.col_view(
                                col,
                                a0.collection_num as int,
                                WhichRange::Base,
                            ) == ranges_mid.col_view(
                                col,
                                a0.collection_num as int,
                                WhichRange::Base,
                            ).update(base_addr.offset as int, Some(next)));
                            if x == b {
                            } else {
                                assert(jold[x].base && jold[b as int].base);
                                assert(jold[x].rank != jold[b as int].rank);
                                crate::page_range::lemma_nth_address_injective(
                                    jold[x].rank,
                                    jold[b as int].rank,
                                );
                                assert(a0.offset != base_addr.offset);
                            }
                        }
                    }
                } else {
                    assert(j3[x] == tailrec);
                    assert(self.page_directory.spec_get(x) == Some(address));
                    assert(address == nth_address(tailrec.rank));
                    assert forall|col: int|
                        0 <= col < self.spec_total() implies address.offset < (
                        #[trigger] self.page_ranges.col_view(
                            col,
                            address.collection_num as int,
                            WhichRange::Tail,
                        )).len() && self.page_ranges.col_view(
                        col,
                        address.collection_num as int,
                        WhichRange::Tail,
                    )[address.offset as int] == record_cell(
                        tailrec.vals,
                        x as i64,
                        tailrec.ind,
                        tailrec.schema,
                        col,
                    ) by {
                        assert(ranges_mid.col_view(
                            col,
                            address.collection_num as int,
                            WhichRange::Tail,
                        ) == ranges_before.col_view(
                            col,
                            address.collection_num as int,
                            WhichRange::Tail,
                        ).push(record_cell(data@, next, cur_ind as int, schema, col)));
                        assert(ranges_before.col_view(
                            col,
                            address.collection_num as int,
                            WhichRange::Tail,
                        ).len() == address.offset as int);
                        assert(self.page_ranges.col_view(
                            col,
                            address.collection_num as int,
                            WhichRange::Tail,
                        ) == ranges_mid.col_view(col, address.collection_num as int, WhichRange::Tail));
                    }
                }
            }
            // Distinct ranks within each range.
            assert forall|x: int, y: int|
                0 <= x < j3.len() && 0 <= y < j3.len() && x != y && (#[trigger] j3[x]).base == (
                #[trigger] j3[y]).base implies j3[x].rank != j3[y].rank by {
                if x < jold.len() && y < jold.len() {
                } else if x < jold.len() {
                    assert(s0.cell_ok_at(x));
                } else if y < jold.len() {
                    assert(s0.cell_ok_at(y));
                }
            }
            // The primary index still holds exactly the live keys.
            assert forall|k2: i64|
                match #[trigger] crate::index::spec_find(self.primary(), k2) {
                    Some(l) => {
                        &&& l.len() == 1
                        &&& 0 <= l[0] < j3.len()
                        &&& j3[l[0] as int].base
                        &&& j3[l[0] as int].vals[self.spec_key_index()] == Some(k2)
                        &&& !spec_deleted(j3, l[0] as int)
                    },
                    None => true,
                } by {
                match crate::index::spec_find(s0.primary(), k2) {
                    Some(l) => {
                        assert(rec_wf(jold, l[0] as int, nd));
                        if l[0] == b {
                            assert(schema is Some);
                        }
                    },
                    None => {},
                }
            }
            // Secondary entries still name valid base records.
            assert forall|cx: int, v: i64|
                0 <= cx < nd implies match #[trigger] crate::index::spec_find(
                    self.index_view(cx),
                    v,
                ) {
                    Some(l) => forall|p: int|
                        0 <= p < l.len() ==> 0 <= #[trigger] l[p] < j3.len() && j3[
                            l[p] as int].base,
                    None => true,
                } by {
                assert(self.index_view(cx) == s0.index_view(cx));
                match crate::index::spec_find(s0.index_view(cx), v) {
                    Some(l) => {
                        assert forall|p: int|
                            0 <= p < l.len() implies 0 <= #[trigger] l[p] < j3.len() && j3[
                            l[p] as int].base by {
                        }
                    },
                    None => {},
                }
            }
            // One more hop back now shows what each earlier hop count showed
            // before the append: history shifts by exactly one version.
            assert forall|n: nat|
                #[trigger] resolve_version(j3, b as int, n + 1) == resolve_version(
                jold,
                b as int,
                n,
            ) by {
                assert(j3[b as int].ind == next as int);
                assert(back_n(j3, next as int, n + 1) == back_n(j3, cur_ind as int, n));
                if jold[b as int].ind == b as int {
                    assert(back_n(j3, b as int, n) == b as int);
                } else {
                    lemma_back_n_stable(jold, j3, b as int, cur_ind as int, n, nd);
                    let c = back_n(jold, cur_ind as int, n);
                    if c == b as int {
                    } else {
                        assert(resolve_from(j3, c) == resolve_from(jold, c));
                    }
                }
            }
            assert(self.wf());
        }
    }
}

/// A delta applied to a row: columns where the delta is non-null take the
/// delta's values, the rest keep the row's.
pub open spec fn apply_delta(row: Seq<Option<i64>>, delta: Seq<Option<i64>>) -> Seq<Option<i64>> {
    Seq::new(
        row.len(),
        |c: int|
            if 0 <= c < delta.len() && delta[c] is Some {
                delta[c]
            } else {
                row[c]
            },
    )
}

/// What one column's index holds at key `v` after a row's value in that
/// column moves from `old_value` to `new_value` (either may be absent): the
/// superseded value's entry loses one occurrence of `rid` (the key leaves
/// entirely once its list empties), and the new value's entry gains `rid`
/// at the end.
pub open spec fn refiled_find(
    prev: Option<Seq<i64>>,
    old_value: Option<i64>,
    new_value: Option<i64>,
    rid: i64,
    v: i64,
) -> Option<Seq<i64>> {
    let mid = if old_value == Some(v) {
        match prev {
            Some(l) => if crate::index::remove_first(l, rid).len() == 0 {
                None
            } else {
                Some(crate::index::remove_first(l, rid))
            },
            None => None,
        }
    } else {
        prev
    };
    if new_value == Some(v) {
        match mid {
            Some(l) => Some(l.push(rid)),
            None => Some(seq![rid]),
        }
    } else {
        mid
    }
}

/// A tail whose bitmask marks exactly the delta's non-null columns applies
/// the delta.
pub proof fn lemma_overlay_delta(row: Seq<Option<i64>>, delta: Seq<Option<i64>>, m: i64)
    requires
        row.len() == delta.len(),
        forall|c: int| 0 <= c < row.len() ==> #[trigger] mask_has(m, c) == (delta[c] is Some),
    ensures
        overlay(row, delta, Some(m)) == apply_delta(row, delta),
{
    assert(overlay(row, delta, Some(m)) =~= apply_delta(row, delta));
}

/// Setting one bit claims that column and nothing else, and keeps the mask
/// within its width.
pub proof fn lemma_mask_set(m: i64, i: u64, w: u64)
    requires
        i < w,
        w <= 60,
        0 <= m < (1i64 << w),
    ensures
        0 <= (m | (1i64 << i)) < (1i64 << w),
        forall|c: int|
            0 <= c < 64 ==> #[trigger] mask_has(m | (1i64 << i), c) == (mask_has(m, c) || c
                == i as int),
{
    assert(0 <= (m | (1i64 << i)) < (1i64 << w)) by (bit_vector)
        requires
            i < w,
            w <= 60,
            0 <= m < (1i64 << w),
    ;
    assert forall|c: int|
        0 <= c < 64 implies #[trigger] mask_has(m | (1i64 << i), c) == (mask_has(m, c) || c
        == i as int) by {
        let cc = c as u64;
        assert((((m | (1i64 << i)) >> cc) & 1i64 == 1i64) == (((m >> cc) & 1i64 == 1i64) || cc
            == i)) by (bit_vector)
            requires
                cc < 64,
                i < 60,
        ;
    }
}

impl Table {
    /// Updates the row keyed by `key` (unique-key only): builds the change
    /// bitmask from the non-null delta columns, refiles every changed
    /// column in its index, appends the tail record and repoints the base's
    /// indirection at it. A missing key reports `false`; an attempt to
    /// write the primary-key column is rejected with `DuplicateKey`.
    #[verifier::loop_isolation(false)]
    #[verifier::rlimit(100)]
    #[verifier::spinoff_prover]
    pub fn update_record(&mut self, key: i64, record: Vec<Option<i64>>) -> (r: Result<
        bool,
        DbError,
    >)
        requires
            old(self).wf(),
            record@.len() == old(self).spec_num_columns(),
            old(self).record_count() + 1 < 0x4000_0000,
        ensures
            final(self).wf(),
            final(self).same_config(*old(self)),
            crate::index::spec_find(old(self).primary(), key) is None ==> r == Ok::<bool, DbError>(
                false,
            ) && final(self).unchanged_state(*old(self)),
            crate::index::spec_find(old(self).primary(), key) is Some && record@[old(
                self,
            ).spec_key_index()] is Some ==> r == Err::<bool, DbError>(DbError::DuplicateKey(key))
                && final(self).unchanged_state(*old(self)),
            crate::index::spec_find(old(self).primary(), key) is Some && record@[old(
                self,
            ).spec_key_index()] is None ==> {
                let b = crate::index::spec_find(old(self).primary(), key)->Some_0[0] as int;
                &&& r == Ok::<bool, DbError>(true)
                &&& final(self).record_count() == old(self).record_count() + 1
                &&& resolve_latest(final(self).j(), b) == apply_delta(
                    resolve_latest(old(self).j(), b),
                    record@,
                )
                &&& !spec_deleted(final(self).j(), b)
                &&& forall|x: int|
                    0 <= x < old(self).record_count() ==> (#[trigger] final(self).j()[x]).base
                        == old(self).j()[x].base && final(self).j()[x].vals == old(self).j()[
                        x].vals
                &&& !final(self).j()[old(self).record_count()].base
                &&& final(self).j()[old(self).record_count()].back == b
                &&& final(self).j()[old(self).record_count()].vals == record@
                &&& final(self).j()[old(self).record_count()].ind == old(self).j()[b].ind
                &&& final(self).j()[old(self).record_count()].schema is Some
                &&& forall|i: int|
                    0 <= i < old(self).spec_num_columns() ==> #[trigger] mask_has(
                        final(self).j()[old(self).record_count()].schema->Some_0,
                        i,
                    ) == (record@[i] is Some)
                &&& final(self).j()[b].ind == old(self).record_count()
                &&& forall|n: nat|
                    #[trigger] resolve_version(final(self).j(), b, n + 1) == resolve_version(
                        old(self).j(),
                        b,
                        n,
                    )
                &&& forall|k2: i64|
                    #[trigger] crate::index::spec_find(final(self).primary(), k2)
                        == crate::index::spec_find(old(self).primary(), k2)
                &&& final(self).retired_keys() == old(self).retired_keys()
                &&& forall|b2: int|
                    0 <= b2 < old(self).record_count() && b2 != b && (#[trigger] old(self).j()[
                    b2]).base ==> resolve_latest(final(self).j(), b2) == resolve_latest(
                        old(self).j(),
                        b2,
                    ) && spec_deleted(final(self).j(), b2) == spec_deleted(old(self).j(), b2)
                &&& forall|c: int, v: i64|
                    0 <= c < old(self).spec_num_columns() && c != old(self).spec_key_index()
                        && record@[c] is None ==> #[trigger] crate::index::spec_find(
                        final(self).index_view(c),
                        v,
                    ) == crate::index::spec_find(old(self).index_view(c), v)
                &&& forall|c: int, v: i64|
                    0 <= c < old(self).spec_num_columns() && c != old(self).spec_key_index()
                        && record@[c] is Some ==> #[trigger] crate::index::spec_find(
                        final(self).index_view(c),
                        v,
                    ) == refiled_find(
                        crate::index::spec_find(old(self).index_view(c), v),
                        resolve_latest(old(self).j(), b)[c],
                        record@[c],
                        b as i64,
                        v,
                    )
            },
    {
        let ghost jold = self.j();
        let ghost nd = self.spec_num_columns();
        let ghost s0 = *old(self);
        let rid = match self.indices[self.key_index].locate(key) {
            Some(l) => {
                proof {
                    assert(self.indices@[self.spec_key_index()].wf());
                }
                l[0]
            },
            None => {
                return Ok(false);
            },
        };
        proof {
            assert(self.primary() == self.indices@[self.spec_key_index()]@);
            assert(crate::index::spec_find(self.primary(), key) is Some);
            assert(0 <= rid < jold.len() && jold[rid as int].base && !spec_deleted(
                jold,
                rid as int,
            ) && jold[rid as int].vals[self.spec_key_index()] == Some(key));
        }
        if record[self.key_index].is_some() {
            return Err(DbError::DuplicateKey(key));
        }
        let current_values = match self.read_latest(rid) {
            Ok(cv) => cv,
            Err(_) => {
                proof {
                    assert(false);
                }
                return Ok(false);
            },
        };
        proof {
            self.lemma_chain_ok();
            assert(rec_wf(jold, rid as int, nd));
            if jold[rid as int].ind != rid as int {
                lemma_resolve_len(jold, jold[rid as int].ind, nd);
            }
            assert(current_values@.len() == nd);
        }
        // Build the change bitmask from the non-null delta columns.
        let mut schema_encoding: i64 = 0;
        let mut i: usize = 0;
        proof {
            lemma_mask_zero();
        }
        while i < self.num_columns
            invariant
                i <= self.num_columns,
                0 <= schema_encoding < (1i64 << (nd as u64)),
                forall|c: int|
                    0 <= c < 64 ==> #[trigger] mask_has(schema_encoding, c) == (c < i && record@[c]
                        is Some),
            decreases self.num_columns - i,
        {
            if record[i].is_some() {
                proof {
                    lemma_mask_set(schema_encoding, i as u64, nd as u64);
                }
                schema_encoding = schema_encoding | (1i64 << (i as u64));
            }
            i = i + 1;
        }
        // Refile every changed column in its index: the superseded value
        // leaves, the new one enters.
        let mut c: usize = 0;
        while c < self.num_columns
            invariant
                c <= self.num_columns,
                self.wf(),
                self.same_config(s0),
                self.j() == jold,
                self.page_ranges == s0.page_ranges,
                self.page_directory == s0.page_directory,
                self.next_rid == s0.next_rid,
                self.retired == s0.retired,
                self.name == s0.name,
                self.indices@[self.spec_key_index()] == s0.indices@[self.spec_key_index()],
                current_values@ == resolve_latest(jold, rid as int),
                current_values@.len() == nd,
                record@.len() == nd,
                forall|x: int, v: i64|
                    0 <= x < nd && x != self.spec_key_index() && record@[x] is None ==> #[trigger]
                    crate::index::spec_find(self.indices@[x]@, v) == crate::index::spec_find(
                        s0.indices@[x]@,
                        v,
                    ),
                forall|x: int, v: i64|
                    0 <= x < nd && x != self.spec_key_index() && record@[x] is Some ==> #[trigger]
                    crate::index::spec_find(self.indices@[x]@, v) == (if x < c {
                        refiled_find(
                            crate::index::spec_find(s0.indices@[x]@, v),
                            current_values@[x],
                            record@[x],
                            rid,
                            v,
                        )
                    } else {
                        crate::index::spec_find(s0.indices@[x]@, v)
                    }),
            decreases self.num_columns - c,
        {
            if c != self.key_index {
                match record[c] {
                    Some(nv) => {
                        let ghost tbl_prev = *self;
                        let ghost iv_prev = self.indices@;
                        let mut idx = self.indices.remove(c);
                        match current_values[c] {
                            Some(ov) => {
                                idx.remove(ov, rid);
                            },
                            None => {},
                        }
                        let ghost idx_mid = idx@;
                        idx.insert(nv, rid);
                        self.indices.insert(c, idx);
                        proof {
                            assert(self.indices@ =~= iv_prev.update(
                                c as int,
                                self.indices@[c as int],
                            ));
                            // The touched index still names only valid base
                            // records: what the removal left was already
                            // filed, and the fresh entry names the live row.
                            assert forall|v: i64|
                                match #[trigger] crate::index::spec_find(idx_mid, v) {
                                    Some(l) => forall|p: int|
                                        0 <= p < l.len() ==> 0 <= #[trigger] l[p] < jold.len()
                                            && jold[l[p] as int].base,
                                    None => true,
                                } by {
                                assert(tbl_prev.index_view(c as int) == iv_prev[c as int]@);
                                match crate::index::spec_find(iv_prev[c as int]@, v) {
                                    Some(l0) => {
                                        crate::index::lemma_remove_first_subset(l0, rid);
                                        match crate::index::spec_find(idx_mid, v) {
                                            Some(l) => {
                                                assert forall|p: int|
                                                    0 <= p < l.len() implies 0 <= #[trigger] l[p]
                                                    < jold.len() && jold[l[p] as int].base by {
                                                    if l != l0 {
                                                        let q = choose|q: int|
                                                            0 <= q < l0.len() && l0[q] == l[p];
                                                    } else {
                                                        assert(l[p] == l0[p]);
                                                    }
                                                }
                                            },
                                            None => {},
                                        }
                                    },
                                    None => {},
                                }
                            }
                            assert forall|cx: int, v: i64|
                                0 <= cx < nd implies match #[trigger] crate::index::spec_find(
                                    self.index_view(cx),
                                    v,
                                ) {
                                    Some(l) => forall|p: int|
                                        0 <= p < l.len() ==> 0 <= #[trigger] l[p] < jold.len()
                                            && jold[l[p] as int].base,
                                    None => true,
                                } by {
                                if cx == c as int {
                                    match crate::index::spec_find(self.index_view(cx), v) {
                                        Some(l) => {
                                            assert forall|p: int|
                                                0 <= p < l.len() implies 0 <= #[trigger] l[p]
                                                < jold.len() && jold[l[p] as int].base by {
                                                if v == nv && p == l.len() - 1 {
                                                    assert(l[p] == rid);
                                                } else {
                                                    match crate::index::spec_find(idx_mid, v) {
                                                        Some(lm) => {
                                                            assert(l[p] == lm[p]);
                                                        },
                                                        None => {
                                                            assert(v == nv && l == seq![rid]);
                                                        },
                                                    }
                                                }
                                            }
                                        },
                                        None => {},
                                    }
                                } else {
                                    assert(tbl_prev.index_view(cx) == self.index_view(cx));
                                }
                            }
                            assert forall|x: int|
                                0 <= x < self.j().len() implies #[trigger] self.cell_ok_at(
                                x,
                            ) by {
                                assert(tbl_prev.cell_ok_at(x));
                            }
                            // The touched index's entries now read as the
                            // refiling describes: the superseded value's
                            // entry lost this record, the new value's
                            // gained it.
                            assert forall|v: i64|
                                #[trigger] crate::index::spec_find(self.indices@[c as int]@, v)
                                == refiled_find(
                                crate::index::spec_find(s0.indices@[c as int]@, v),
                                current_values@[c as int],
                                record@[c as int],
                                rid,
                                v,
                            ) by {
                                let prev = crate::index::spec_find(iv_prev[c as int]@, v);
                                let mid = crate::index::spec_find(idx_mid, v);
                                match current_values@[c as int] {
                                    Some(ov) => {
                                        if v == ov {
                                        } else {
                                            assert(mid == prev);
                                        }
                                    },
                                    None => {
                                        assert(mid == prev);
                                    },
                                }
                            }
                            assert(self.wf());
                        }
                    },
                    None => {},
                }
            }
            c = c + 1;
        }
        // Append the tail record carrying the delta.
        self.append_tail_record(rid, record, Some(schema_encoding));
        proof {
            lemma_overlay_delta(resolve_latest(jold, rid as int), record@, schema_encoding);
        }
        Ok(true)
    }

    /// Logically deletes the row keyed by `key` (unique-key only): removes
    /// the key and every current column value from the indices, retires the
    /// key forever, and appends a tombstone tail. A missing key - including
    /// an already deleted one - fails with `KeyNotFound`, so deletion is
    /// not idempotent.
    #[verifier::loop_isolation(false)]
    #[verifier::rlimit(100)]
    #[verifier::spinoff_prover]
    pub fn delete_record(&mut self, key: i64) -> (r: Result<bool, DbError>)
        requires
            old(self).wf(),
            old(self).record_count() + 1 < 0x4000_0000,
        ensures
            final(self).wf(),
            final(self).same_config(*old(self)),
            crate::index::spec_find(old(self).primary(), key) is None ==> r == Err::<
                bool,
                DbError,
            >(DbError::KeyNotFound(key)) && final(self).unchanged_state(*old(self)),
            crate::index::spec_find(old(self).primary(), key) is Some ==> {
                let b = crate::index::spec_find(old(self).primary(), key)->Some_0[0] as int;
                &&& r == Ok::<bool, DbError>(true)
                &&& final(self).record_count() == old(self).record_count() + 1
                &&& spec_deleted(final(self).j(), b)
                &&& forall|x: int|
                    0 <= x < old(self).record_count() ==> (#[trigger] final(self).j()[x]).base
                        == old(self).j()[x].base && final(self).j()[x].vals == old(self).j()[
                        x].vals
                &&& !final(self).j()[old(self).record_count()].base
                &&& final(self).j()[old(self).record_count()].back == b
                &&& final(self).j()[old(self).record_count()].ind == old(self).j()[b].ind
                &&& final(self).j()[old(self).record_count()].schema is None
                &&& forall|i: int|
                    0 <= i < old(self).spec_num_columns() ==> (#[trigger] final(self).j()[old(
                        self,
                    ).record_count()].vals[i]) is None
                &&& final(self).j()[b].ind == old(self).record_count()
                &&& forall|n: nat|
                    #[trigger] resolve_version(final(self).j(), b, n + 1) == resolve_version(
                        old(self).j(),
                        b,
                        n,
                    )
                &&& resolve_latest(final(self).j(), b) == resolve_latest(old(self).j(), b)
                &&& crate::index::spec_find(final(self).primary(), key) is None
                &&& forall|k2: i64|
                    k2 != key ==> #[trigger] crate::index::spec_find(final(self).primary(), k2)
                        == crate::index::spec_find(old(self).primary(), k2)
                &&& final(self).retired_keys() == old(self).retired_keys().push(key)
                &&& forall|b2: int|
                    0 <= b2 < old(self).record_count() && b2 != b && (#[trigger] old(self).j()[
                    b2]).base ==> resolve_latest(final(self).j(), b2) == resolve_latest(
                        old(self).j(),
                        b2,
                    ) && spec_deleted(final(self).j(), b2) == spec_deleted(old(self).j(), b2)
                &&& forall|c2: int, v: i64|
                    0 <= c2 < old(self).spec_num_columns() && c2 != old(self).spec_key_index()
                        ==> #[trigger] crate::index::spec_find(final(self).index_view(c2), v)
                        == refiled_find(
                        crate::index::spec_find(old(self).index_view(c2), v),
                        resolve_latest(old(self).j(), b)[c2],
                        None,
                        b as i64,
                        v,
                    )
            },
    {
        let ghost jold = self.j();
        let ghost nd = self.spec_num_columns();
        let ghost s0 = *old(self);
        let rid = match self.indices[self.key_index].locate(key) {
            Some(l) => l[0],
            None => {
                return Err(DbError::KeyNotFound(key));
            },
        };
        proof {
            assert(self.primary() == self.indices@[self.spec_key_index()]@);
            assert(crate::index::spec_find(self.primary(), key) is Some);
            assert(0 <= rid < jold.len() && jold[rid as int].base && !spec_deleted(
                jold,
                rid as int,
            ) && jold[rid as int].vals[self.spec_key_index()] == Some(key));
        }
        let current_values = match self.read_latest(rid) {
            Ok(cv) => cv,
            Err(_) => {
                proof {
                    assert(false);
                }
                return Err(DbError::KeyNotFound(key));
            },
        };
        proof {
            self.lemma_chain_ok();
            assert(rec_wf(jold, rid as int, nd));
            if jold[rid as int].ind != rid as int {
                lemma_resolve_len(jold, jold[rid as int].ind, nd);
            }
            assert(current_values@.len() == nd);
        }
        // The key leaves the primary index and is retired forever.
        let ghost iv0 = self.indices@;
        let mut pidx = self.indices.remove(self.key_index);
        pidx.remove(key, rid);
        self.indices.insert(self.key_index, pidx);
        self.retired.push(key);
        proof {
            assert(self.indices@ =~= iv0.update(
                self.spec_key_index(),
                self.indices@[self.spec_key_index()],
            ));
            assert(crate::index::spec_find(iv0[self.spec_key_index()]@, key) == crate::index::spec_find(
                s0.primary(),
                key,
            ));
            let lfind = crate::index::spec_find(iv0[self.spec_key_index()]@, key)->Some_0;
            assert(lfind =~= seq![rid]);
            assert(crate::index::remove_first(lfind, rid) =~= Seq::<i64>::empty());
            assert(crate::index::spec_find(self.primary(), key) is None);
            assert forall|cx: int, v: i64|
                0 <= cx < nd implies match #[trigger] crate::index::spec_find(
                    self.index_view(cx),
                    v,
                ) {
                    Some(l) => forall|p: int|
                        0 <= p < l.len() ==> 0 <= #[trigger] l[p] < jold.len() && jold[
                            l[p] as int].base,
                    None => true,
                } by {
                if cx == self.spec_key_index() {
                    assert(s0.index_view(cx) == iv0[cx]@);
                    match crate::index::spec_find(self.index_view(cx), v) {
                        Some(l) => {
                            assert forall|p: int|
                                0 <= p < l.len() implies 0 <= #[trigger] l[p] < jold.len() && jold[
                                l[p] as int].base by {
                                match crate::index::spec_find(iv0[cx]@, v) {
                                    Some(l0) => {
                                        if v != key {
                                            assert(l == l0);
                                            assert(l0.contains(l[p])) by {
                                                assert(l0[p] == l[p]);
                                            }
                                        } else {
                                            crate::index::lemma_remove_first_subset(l0, rid);
                                            assert(l0.contains(l[p]));
                                        }
                                        let q = choose|q: int| 0 <= q < l0.len() && l0[q] == l[p];
                                    },
                                    None => {},
                                }
                            }
                        },
                        None => {},
                    }
                } else {
                    assert(s0.index_view(cx) == self.index_view(cx));
                }
            }
            assert forall|x: int|
                0 <= x < self.j().len() implies #[trigger] self.cell_ok_at(x) by {
                assert(s0.cell_ok_at(x));
            }
            assert(self.wf());
        }
        // Every current column value leaves its index.
        let ghost s1 = *self;
        let mut c: usize = 0;
        while c < self.num_columns
            invariant
                c <= self.num_columns,
                self.wf(),
                self.same_config(s0),
                self.j() == jold,
                self.page_ranges == s1.page_ranges,
                self.page_directory == s1.page_directory,
                self.next_rid == s1.next_rid,
                self.retired == s1.retired,
                self.name == s1.name,
                self.indices@[self.spec_key_index()] == s1.indices@[self.spec_key_index()],
                current_values@.len() == nd,
                current_values@ == resolve_latest(jold, rid as int),
                forall|x: int, v: i64|
                    0 <= x < nd && x != self.spec_key_index() ==> #[trigger]
                    crate::index::spec_find(self.indices@[x]@, v) == (if x < c {
                        refiled_find(
                            crate::index::spec_find(s1.indices@[x]@, v),
                            current_values@[x],
                            None,
                            rid,
                            v,
                        )
                    } else {
                        crate::index::spec_find(s1.indices@[x]@, v)
                    }),
            decreases self.num_columns - c,
        {
            if c != self.key_index {
                match current_values[c] {
                    Some(ov) => {
                        let ghost tbl_prev = *self;
                        let ghost iv_prev = self.indices@;
                        let mut idx = self.indices.remove(c);
                        idx.remove(ov, rid);
                        self.indices.insert(c, idx);
                        proof {
                            assert(self.indices@ =~= iv_prev.update(
                                c as int,
                                self.indices@[c as int],
                            ));
                            assert forall|cx: int, v: i64|
                                0 <= cx < nd implies match #[trigger] crate::index::spec_find(
                                    self.index_view(cx),
                                    v,
                                ) {
                                    Some(l) => forall|p: int|
                                        0 <= p < l.len() ==> 0 <= #[trigger] l[p] < jold.len()
                                            && jold[l[p] as int].base,
                                    None => true,
                                } by {
                                if cx == c as int {
                                    assert(tbl_prev.index_view(cx) == iv_prev[cx]@);
                                    match crate::index::spec_find(self.index_view(cx), v) {
                                        Some(l) => {
                                            assert forall|p: int|
                                                0 <= p < l.len() implies 0 <= #[trigger] l[p]
                                                < jold.len() && jold[l[p] as int].base by {
                                                match crate::index::spec_find(iv_prev[cx]@, v) {
                                                    Some(l0) => {
                                                        if v == ov {
                                                            crate::index::lemma_remove_first_subset(
                                                                l0,
                                                                rid,
                                                            );
                                                            assert(l0.contains(l[p]));
                                                        } else {
                                                            assert(l == l0);
                                                            assert(l0.contains(l[p])) by {
                                                                assert(l0[p] == l[p]);
                                                            }
                                                        }
                                                        let q = choose|q: int|
                                                            0 <= q < l0.len() && l0[q] == l[p];
                                                    },
                                                    None => {},
                                                }
                                            }
                                        },
                                        None => {},
                                    }
                                } else {
                                    assert(tbl_prev.index_view(cx) == self.index_view(cx));
                                }
                            }
                            assert forall|x: int|
                                0 <= x < self.j().len() implies #[trigger] self.cell_ok_at(
                                x,
                            ) by {
                                assert(tbl_prev.cell_ok_at(x));
                            }
                            // The touched index's entries now read as the
                            // withdrawal describes: the current value's
                            // entry lost this record.
                            assert forall|v: i64|
                                #[trigger] crate::index::spec_find(self.indices@[c as int]@, v)
                                == refiled_find(
                                crate::index::spec_find(s1.indices@[c as int]@, v),
                                current_values@[c as int],
                                None,
                                rid,
                                v,
                            ) by {
                                let prev = crate::index::spec_find(iv_prev[c as int]@, v);
                                if v == ov {
                                } else {
                                    assert(crate::index::spec_find(self.indices@[c as int]@, v)
                                        == prev);
                                }
                            }
                            assert(self.wf());
                        }
                    },
                    None => {},
                }
            }
            c = c + 1;
        }
        // Append the tombstone tail.
        let mut tail_record: Vec<Option<i64>> = Vec::new();
        let mut t: usize = 0;
        while t < self.num_columns
            invariant
                t <= self.num_columns,
                tail_record@.len() == t,
                forall|x: int| 0 <= x < t ==> tail_record@[x] is None,
            decreases self.num_columns - t,
        {
            tail_record.push(None);
            t = t + 1;
        }
        proof {
            assert forall|k2: i64|
                (#[trigger] crate::index::spec_find(self.primary(), k2)) is Some implies
                crate::index::spec_find(self.primary(), k2)->Some_0[0] != rid by {
                if k2 != key {
                    assert(crate::index::spec_find(self.primary(), k2) == crate::index::spec_find(
                        s0.primary(),
                        k2,
                    ));
                    match crate::index::spec_find(s0.primary(), k2) {
                        Some(l0) => {
                            assert(jold[l0[0] as int].vals[self.spec_key_index()] == Some(k2));
                        },
                        None => {},
                    }
                }
            }
        }
        self.append_tail_record(rid, tail_record, None);
        Ok(true)
    }
}

impl Table {
    /// How many page frames are resident in the buffer pool.
    pub open(crate) spec fn resident_frames(self) -> int {
        self.page_ranges.resident_frames()
    }

    /// How many records one range holds.
    pub open(crate) spec fn range_count(self, tail: bool) -> int {
        if tail {
            self.page_ranges.count_of(WhichRange::Tail)
        } else {
            self.page_ranges.count_of(WhichRange::Base)
        }
    }

    /// The current slots of one physical page.
    pub open(crate) spec fn page_view(self, column: int, collection_num: int, tail: bool) -> Seq<
        Option<i64>,
    > {
        self.page_ranges.col_view(
            column,
            collection_num,
            if tail {
                WhichRange::Tail
            } else {
                WhichRange::Base
            },
        )
    }

    /// Writes every buffered page back to the spill store; used at table
    /// close so nothing stays only in memory frames afterwards.
    pub fn flush(&mut self)
        requires
            old(self).wf(),
        ensures
            final(self).wf(),
            final(self).resident_frames() == 0,
            final(self).same_config(*old(self)),
            final(self).unchanged_state(*old(self)),
            forall|b: int|
                0 <= b < old(self).record_count() && (#[trigger] old(self).j()[b]).base
                    ==> resolve_latest(final(self).j(), b) == resolve_latest(old(self).j(), b)
                    && spec_deleted(final(self).j(), b) == spec_deleted(old(self).j(), b),
    {
        self.page_ranges.flush();
        proof {
            assert forall|x: int| 0 <= x < self.j().len() implies #[trigger] self.cell_ok_at(
                x,
            ) by {
                assert(old(self).cell_ok_at(x));
                old(self).lemma_addr_ok(x);
            }
            assert forall|cx: int, v: i64|
                0 <= cx < self.spec_num_columns() implies match #[trigger] crate::index::spec_find(
                    self.index_view(cx),
                    v,
                ) {
                    Some(l) => forall|p: int|
                        0 <= p < l.len() ==> 0 <= #[trigger] l[p] < self.j().len() && self.j()[
                            l[p] as int].base,
                    None => true,
                } by {
                assert(self.index_view(cx) == old(self).index_view(cx));
            }
            assert(self.wf());
        }
    }
}

/// Every record identifier a primary-index range scan lists names a live,
/// non-deleted base record.
pub proof fn lemma_primary_range_live(t: Table, a: i64, b: i64)
    requires
        t.wf(),
    ensures
        forall|p: int|
            0 <= p < crate::index::spec_range(t.primary(), a, b).len() ==> {
                let rid = #[trigger] crate::index::spec_range(t.primary(), a, b)[p];
                &&& 0 <= rid < t.j().len()
                &&& t.j()[rid as int].base
                &&& !spec_deleted(t.j(), rid as int)
            },
{
    let s = t.primary();
    crate::index::lemma_range_elements_member(s, 0, a, b);
    assert(t.indices@[t.spec_key_index()].wf());
    assert forall|p: int|
        0 <= p < crate::index::spec_range(s, a, b).len() implies {
        let rid = #[trigger] crate::index::spec_range(s, a, b)[p];
        &&& 0 <= rid < t.j().len()
        &&& t.j()[rid as int].base
        &&& !spec_deleted(t.j(), rid as int)
    } by {
        let rid = crate::index::spec_range(s, a, b)[p];
        let k = choose|k: int|
            0 <= k < s.len() && a <= (#[trigger] s[k]).0 <= b && s[k].1.contains(rid);
        crate::index::lemma_find_at(s, 0, k);
        assert(crate::index::spec_find(s, s[k].0) == Some(s[k].1));
        let q = choose|q: int| 0 <= q < s[k].1.len() && s[k].1[q] == rid;
        assert(s[k].1[0] == rid);
    }
}

} // verus!
