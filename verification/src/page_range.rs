//! Physical addressing: a `PhysicalAddress` locates one row of one page
//! collection, a `PhysicalAddressIterator` hands out consecutive append
//! positions, and a `Pid` is the signed, derived page identifier that keys
//! the buffer pool (positive for the base range, negative for the tail
//! range; zero is reserved/invalid).

use vstd::prelude::*;
use crate::error::BufferPoolError;
use crate::page::PAGE_SIZE;
use crate::bufferpool::BufferPool;
use crate::table::NUM_META_PAGES;

verus! {

/// Which half of a table's physical storage an address refers to: the base
/// range (row-creation records) or the tail range (version-delta records).
#[derive(Debug, Clone, Copy, PartialEq, Eq, Structural)]
pub enum WhichRange {
    Base,
    Tail,
}

/// The metadata columns appended after the data columns of every page
/// collection, in fixed order.
#[derive(Debug, Clone, Copy, PartialEq, Eq, Structural)]
pub enum MetaPage {
    RidCol,
    IndirectionCol,
    SchemaEncodingCol,
    StartTimeCol,
}

impl MetaPage {
    /// Position of this metadata column among the metadata pages.
    pub open spec fn spec_index(self) -> int {
        match self {
            MetaPage::RidCol => 0,
            MetaPage::IndirectionCol => 1,
            MetaPage::SchemaEncodingCol => 2,
            MetaPage::StartTimeCol => 3,
        }
    }

    pub fn index(self) -> (i: usize)
        ensures
            i == self.spec_index(),
    {
        match self {
            MetaPage::RidCol => 0,
            MetaPage::IndirectionCol => 1,
            MetaPage::SchemaEncodingCol => 2,
            MetaPage::StartTimeCol => 3,
        }
    }
}

/// A location descriptor: which page collection, and which row offset within
/// every page of that collection.
#[derive(Hash, Eq, PartialEq, Copy, Clone, Debug, Default, Structural)]
pub struct PhysicalAddress {
    pub offset: usize,
    pub collection_num: usize,
}

impl PhysicalAddress {
    /// The rank of this address in append order.
    pub open spec fn spec_rank(self) -> int {
        self.collection_num * (PAGE_SIZE as int) + self.offset
    }

    pub open spec fn wf(self) -> bool {
        self.offset < PAGE_SIZE
    }
}

/// The address an appender reaches after `n` appends into a range.
pub open spec fn nth_address(n: int) -> PhysicalAddress {
    PhysicalAddress {
        offset: (n % (PAGE_SIZE as int)) as usize,
        collection_num: (n / (PAGE_SIZE as int)) as usize,
    }
}

/// Distinct append ranks give distinct addresses.
pub proof fn lemma_nth_address_injective(a: int, b: int)
    requires
        0 <= a < 0x4000_0000,
        0 <= b < 0x4000_0000,
        a != b,
    ensures
        nth_address(a) != nth_address(b),
{
    vstd::arithmetic::div_mod::lemma_fundamental_div_mod(a, PAGE_SIZE as int);
    vstd::arithmetic::div_mod::lemma_fundamental_div_mod(b, PAGE_SIZE as int);
    assert(0 <= a % (PAGE_SIZE as int) < PAGE_SIZE as int);
    assert(0 <= b % (PAGE_SIZE as int) < PAGE_SIZE as int);
    assert(0 <= a / (PAGE_SIZE as int) <= a) by {
        vstd::arithmetic::div_mod::lemma_div_nonincreasing(a, PAGE_SIZE as int);
        vstd::arithmetic::div_mod::lemma_div_pos_is_pos(a, PAGE_SIZE as int);
    }
    assert(0 <= b / (PAGE_SIZE as int) <= b) by {
        vstd::arithmetic::div_mod::lemma_div_nonincreasing(b, PAGE_SIZE as int);
        vstd::arithmetic::div_mod::lemma_div_pos_is_pos(b, PAGE_SIZE as int);
    }
}

/// An auto-advancing cursor over append positions: offsets run through a
/// collection and then roll over into the next collection.
#[derive(Debug, Clone, Default)]
pub struct PhysicalAddressIterator {
    pub current: PhysicalAddress,
}

impl PhysicalAddressIterator {
    /// How many addresses have been handed out so far.
    pub open spec fn spec_count(self) -> int {
        self.current.spec_rank()
    }

    pub open spec fn wf(self) -> bool {
        self.current.wf()
    }

    pub fn new() -> (it: PhysicalAddressIterator)
        ensures
            it.wf(),
            it.spec_count() == 0,
    {
        PhysicalAddressIterator { current: PhysicalAddress { offset: 0, collection_num: 0 } }
    }

    /// Hands out the next append position and advances the cursor.
    pub fn next(&mut self) -> (addr: PhysicalAddress)
        requires
            old(self).wf(),
            old(self).spec_count() < 0x4000_0000,
        ensures
            final(self).wf(),
            addr == nth_address(old(self).spec_count()),
            addr.wf(),
            final(self).spec_count() == old(self).spec_count() + 1,
    {
        let addr = self.current;
        proof {
            vstd::arithmetic::div_mod::lemma_fundamental_div_mod_converse(
                addr.spec_rank(),
                PAGE_SIZE as int,
                addr.collection_num as int,
                addr.offset as int,
            );
        }
        self.current.offset = self.current.offset + 1;
        if self.current.offset >= PAGE_SIZE {
            self.current.offset = 0;
            self.current.collection_num = self.current.collection_num + 1;
        }
        addr
    }
}

/// The signed page identifier for a (column, collection) pair of one range.
/// The magnitude is `col + total_cols * collection_num + 1`, so it is never
/// zero; the sign encodes base (positive) versus tail (negative).
#[derive(Copy, Clone, Debug, PartialEq, Eq, Structural)]
pub struct Pid {
    pid: i64,
}

/// The page identifier value for a column of a collection in one range.
pub open spec fn spec_pid(col: int, total_cols: int, collection_num: int, range: WhichRange) -> int {
    let magnitude = col + total_cols * collection_num + 1;
    if range is Tail {
        -magnitude
    } else {
        magnitude
    }
}

/// The page identifier as the 64-bit value the buffer pool is keyed by.
pub open spec fn spec_pid64(col: int, total_cols: int, collection_num: int, range: WhichRange) -> i64 {
    spec_pid(col, total_cols, collection_num, range) as i64
}

/// Within the engine's bounds the 64-bit page identifier is faithful to its
/// mathematical value, so distinct triples stay distinct after the cast.
pub proof fn lemma_pid64_faithful(col: int, total: int, c: int, range: WhichRange)
    requires
        0 <= col < total,
        0 <= c,
        total * (c + 1) < 0x4000_0000,
    ensures
        spec_pid64(col, total, c, range) as int == spec_pid(col, total, c, range),
{
    assert(1 <= col + total * c + 1 <= total * (c + 1)) by (nonlinear_arith)
        requires
            0 <= col < total,
            0 <= c,
    ;
}

/// Distinct (column, collection, range) triples give distinct page ids,
/// provided both columns are below the shared column count.
pub proof fn lemma_pid_injective(
    c1: int,
    k1: int,
    r1: WhichRange,
    c2: int,
    k2: int,
    r2: WhichRange,
    total: int,
)
    requires
        0 <= c1 < total,
        0 <= c2 < total,
        0 <= k1,
        0 <= k2,
        (c1, k1, r1) != (c2, k2, r2),
    ensures
        spec_pid(c1, total, k1, r1) != spec_pid(c2, total, k2, r2),
{
    assert(c1 + total * k1 + 1 >= 1) by (nonlinear_arith)
        requires
            0 <= c1,
            0 <= k1,
            total >= 1,
    ;
    assert(c2 + total * k2 + 1 >= 1) by (nonlinear_arith)
        requires
            0 <= c2,
            0 <= k2,
            total >= 1,
    ;
    if r1 == r2 {
        assert((c1, k1) != (c2, k2));
        assert(c1 + total * k1 != c2 + total * k2) by (nonlinear_arith)
            requires
                0 <= c1 < total,
                0 <= c2 < total,
                0 <= k1,
                0 <= k2,
                (c1, k1) != (c2, k2),
        ;
    }
}

impl Pid {
    pub closed spec fn spec_get(self) -> int {
        self.pid as int
    }

    /// Derives the page id for a column of a collection in one range.
    pub fn new(col: usize, total_cols: usize, collection_num: usize, range: WhichRange) -> (p: Pid)
        requires
            col < total_cols,
            total_cols * (collection_num + 1) < 0x4000_0000,
        ensures
            p.spec_get() == spec_pid(col as int, total_cols as int, collection_num as int, range),
            p.spec_get() != 0,
    {
        proof {
            assert(col + total_cols * collection_num + 1 <= total_cols * (collection_num + 1)
                && total_cols * collection_num >= 0 && total_cols * collection_num <= total_cols
                * (collection_num + 1)) by (nonlinear_arith)
                requires
                    col < total_cols,
                    0 <= collection_num,
            ;
        }
        let magnitude = col + total_cols * collection_num + 1;
        let mut pid = magnitude as i64;
        if matches![range, WhichRange::Tail] {
            pid = -pid;
        }
        Pid { pid }
    }

    pub fn get(&self) -> (v: i64)
        ensures
            v as int == self.spec_get(),
    {
        self.pid
    }

    /// Moves the id `i` pages onward within its own range: away from zero,
    /// so the sign (and with it the range) is preserved. A zero id is
    /// invalid and is reported as such.
    pub fn increment(&mut self, i: i64) -> (r: Result<i64, BufferPoolError>)
        requires
            0 <= i,
            old(self).spec_get() + i <= i64::MAX,
            old(self).spec_get() - i >= i64::MIN,
        ensures
            old(self).spec_get() == 0 ==> r == Err::<i64, BufferPoolError>(
                BufferPoolError::ZeroPid,
            ) && *final(self) == *old(self),
            old(self).spec_get() > 0 ==> final(self).spec_get() == old(self).spec_get() + i
                && r == Ok::<i64, BufferPoolError>((old(self).spec_get() + i) as i64),
            old(self).spec_get() < 0 ==> final(self).spec_get() == old(self).spec_get() - i
                && r == Ok::<i64, BufferPoolError>((old(self).spec_get() - i) as i64),
    {
        if self.pid == 0 {
            return Err(BufferPoolError::ZeroPid);
        }
        if self.pid > 0 {
            self.pid = self.pid + i;
        } else {
            self.pid = self.pid - i;
        }
        Ok(self.pid)
    }
}

/// How the two division facts move when one more append happens.
pub(crate) proof fn lemma_rank_step(n: int)
    requires
        0 <= n,
    ensures
        n % (PAGE_SIZE as int) + 1 < PAGE_SIZE as int ==> (n + 1) / (PAGE_SIZE as int) == n / (
        PAGE_SIZE as int) && (n + 1) % (PAGE_SIZE as int) == n % (PAGE_SIZE as int) + 1,
        n % (PAGE_SIZE as int) + 1 == PAGE_SIZE as int ==> (n + 1) / (PAGE_SIZE as int) == n / (
        PAGE_SIZE as int) + 1 && (n + 1) % (PAGE_SIZE as int) == 0,
        0 <= n % (PAGE_SIZE as int) < PAGE_SIZE as int,
        0 <= n / (PAGE_SIZE as int) <= n,
{
    let p = PAGE_SIZE as int;
    vstd::arithmetic::div_mod::lemma_fundamental_div_mod(n, p);
    vstd::arithmetic::div_mod::lemma_div_pos_is_pos(n, p);
    vstd::arithmetic::div_mod::lemma_div_nonincreasing(n, p);
    if n % p + 1 < p {
        vstd::arithmetic::div_mod::lemma_fundamental_div_mod_converse(n + 1, p, n / p, n % p + 1);
    } else {
        vstd::arithmetic::div_mod::lemma_fundamental_div_mod_converse(n + 1, p, n / p + 1, 0);
    }
}

/// The two parallel halves of a table's physical storage: the base range for
/// row-creation records and the tail range for version-delta records. They
/// share one buffer pool and are addressed independently.
pub struct PageRanges {
    bufferpool: BufferPool,
    base_next: PhysicalAddressIterator,
    tail_next: PhysicalAddressIterator,
}

impl PageRanges {
    /// Pages per collection: the data columns plus the metadata columns.
    pub closed spec fn spec_total(self) -> int {
        self.bufferpool.spec_total_cols()
    }

    /// How many records have been appended to one range.
    pub closed spec fn count_of(self, range: WhichRange) -> int {
        match range {
            WhichRange::Base => self.base_next.spec_count(),
            WhichRange::Tail => self.tail_next.spec_count(),
        }
    }

    /// Whether a (column, collection) pair is within the engine's bounds.
    /// Only pages at such pairs exist; all statements about page contents
    /// are guarded by it.
    pub open spec fn cok(self, col: int, c: int) -> bool {
        &&& 0 <= col < self.spec_total()
        &&& 0 <= c
        &&& self.spec_total() * (c + 1) < 0x4000_0000
    }

    /// The content of the page holding `col` of collection `c` in `range`.
    pub closed spec fn col_view(self, col: int, c: int, range: WhichRange) -> Seq<Option<i64>> {
        self.bufferpool.col_view(col, c, range)
    }

    /// How many frames are resident in the buffer pool.
    pub closed spec fn resident_frames(self) -> int {
        self.bufferpool.resident_count()
    }

    /// The append frontier of a range: pages of the current collection hold
    /// exactly the records appended into it so far, and pages of later
    /// collections are still empty.
    pub closed spec fn frontier_ok(self, range: WhichRange) -> bool {
        let n = self.count_of(range);
        let total = self.spec_total();
        &&& forall|col: int|
            0 <= col < total ==> (#[trigger] self.col_view(
                col,
                n / (PAGE_SIZE as int),
                range,
            )).len() == n % (PAGE_SIZE as int)
        &&& forall|col: int, c: int|
            self.cok(col, c) && c > n / (PAGE_SIZE as int) ==> (#[trigger] self.col_view(
                col,
                c,
                range,
            )).len() == 0
    }

    pub closed spec fn wf(self) -> bool {
        &&& self.bufferpool.wf()
        &&& 5 <= self.spec_total() <= 64
        &&& self.base_next.wf()
        &&& self.tail_next.wf()
        &&& 0 <= self.count_of(WhichRange::Base) < 0x4000_0000
        &&& 0 <= self.count_of(WhichRange::Tail) < 0x4000_0000
        &&& self.frontier_ok(WhichRange::Base)
        &&& self.frontier_ok(WhichRange::Tail)
    }

    /// The bounds that well-formedness keeps on counts and column totals.
    pub proof fn lemma_wf_bounds(self)
        requires
            self.wf(),
        ensures
            0 <= self.count_of(WhichRange::Base) < 0x4000_0000,
            0 <= self.count_of(WhichRange::Tail) < 0x4000_0000,
            5 <= self.spec_total() <= 64,
    {
    }

    /// Storage for a table of `num_columns` data columns, initially empty.
    pub fn new(num_columns: usize) -> (pr: PageRanges)
        requires
            1 <= num_columns <= 60,
        ensures
            pr.wf(),
            pr.spec_total() == num_columns + NUM_META_PAGES,
            pr.count_of(WhichRange::Base) == 0,
            pr.count_of(WhichRange::Tail) == 0,
            forall|col: int, c: int, r: WhichRange| (#[trigger] pr.col_view(col, c, r)).len() == 0,
    {
        let mut bufferpool = BufferPool::new();
        bufferpool.set_total_cols(num_columns);
        let pr = PageRanges {
            bufferpool,
            base_next: PhysicalAddressIterator::new(),
            tail_next: PhysicalAddressIterator::new(),
        };
        proof {
            vstd::arithmetic::div_mod::lemma_fundamental_div_mod_converse(
                0,
                PAGE_SIZE as int,
                0,
                0,
            );
        }
        pr
    }

    /// Collections reachable from the record-count bound stay within the
    /// page-id bounds.
    pub(crate) proof fn lemma_collection_ok(self, c: int)
        requires
            5 <= self.spec_total() <= 64,
            0 <= c <= (0x4000_0000 as int) / (PAGE_SIZE as int),
        ensures
            self.spec_total() * (c + 1) < 0x4000_0000,
    {
        assert((0x4000_0000 as int) / (PAGE_SIZE as int) == 0x20_0000);
        assert(self.spec_total() * (c + 1) <= 64 * (c + 1)) by (nonlinear_arith)
            requires
                0 < self.spec_total() <= 64,
                0 <= c,
        ;
    }

    /// Appends one record version: writes each of the `total` column values
    /// at the next free offset of its column's page, then advances the
    /// append cursor. All other pages are untouched.
    pub fn append(&mut self, all_data: &Vec<Option<i64>>, range: WhichRange) -> (addr:
        PhysicalAddress)
        requires
            old(self).wf(),
            all_data@.len() == old(self).spec_total(),
            old(self).count_of(range) + 1 < 0x4000_0000,
        ensures
            final(self).wf(),
            final(self).spec_total() == old(self).spec_total(),
            final(self).count_of(range) == old(self).count_of(range) + 1,
            forall|r: WhichRange| r != range ==> final(self).count_of(r) == old(self).count_of(r),
            addr == nth_address(old(self).count_of(range)),
            addr.wf(),
            old(self).cok(0, addr.collection_num as int),
            forall|col: int|
                0 <= col < old(self).spec_total() ==> #[trigger] final(self).col_view(
                    col,
                    addr.collection_num as int,
                    range,
                ) == old(self).col_view(col, addr.collection_num as int, range).push(
                    all_data@[col],
                ),
            forall|col: int|
                0 <= col < old(self).spec_total() ==> (#[trigger] old(self).col_view(
                    col,
                    addr.collection_num as int,
                    range,
                )).len() == addr.offset as int,
            forall|col: int, c: int, r: WhichRange|
                old(self).cok(col, c) && !(c == addr.collection_num as int && r == range)
                    ==> #[trigger] final(self).col_view(col, c, r) == old(self).col_view(col, c, r),
    {
        let ghost n = self.count_of(range);
        proof {
            lemma_rank_step(n);
            vstd::arithmetic::div_mod::lemma_div_is_ordered(n, 0x4000_0000, PAGE_SIZE as int);
            self.lemma_collection_ok(n / (PAGE_SIZE as int));
        }
        let addr = match range {
            WhichRange::Base => self.base_next.next(),
            WhichRange::Tail => self.tail_next.next(),
        };
        let ghost s0 = *old(self);
        proof {
            assert(addr.collection_num as int == n / (PAGE_SIZE as int));
            assert(addr.offset as int == n % (PAGE_SIZE as int));
        }
        let total = self.bufferpool.total_cols();
        let ghost it_b = self.base_next;
        let ghost it_t = self.tail_next;
        let mut col: usize = 0;
        while col < total
            invariant
                self.base_next == it_b,
                self.tail_next == it_t,
                it_b.wf(),
                it_t.wf(),
                self.count_of(range) == n + 1,
                self.count_of(WhichRange::Base) == if range is Base {
                    s0.count_of(WhichRange::Base) + 1
                } else {
                    s0.count_of(WhichRange::Base)
                },
                self.count_of(WhichRange::Tail) == if range is Tail {
                    s0.count_of(WhichRange::Tail) + 1
                } else {
                    s0.count_of(WhichRange::Tail)
                },
                self.bufferpool.wf(),
                self.bufferpool.spec_total_cols() == s0.spec_total(),
                5 <= s0.spec_total() <= 64,
                total as int == s0.spec_total(),
                col <= total,
                all_data@.len() == total as int,
                addr.collection_num as int == n / (PAGE_SIZE as int),
                addr.offset as int == n % (PAGE_SIZE as int),
                addr.offset < PAGE_SIZE,
                s0.spec_total() * (addr.collection_num as int + 1) < 0x4000_0000,
                forall|cl: int|
                    0 <= cl < col ==> #[trigger] self.bufferpool.col_view(
                        cl,
                        addr.collection_num as int,
                        range,
                    ) == s0.col_view(cl, addr.collection_num as int, range).push(all_data@[cl]),
                forall|cl: int|
                    col <= cl < total ==> #[trigger] self.bufferpool.col_view(
                        cl,
                        addr.collection_num as int,
                        range,
                    ) == s0.col_view(cl, addr.collection_num as int, range),
                forall|cl: int, c: int, r: WhichRange|
                    s0.cok(cl, c) && !(c == addr.collection_num as int && r == range)
                        ==> #[trigger] self.bufferpool.col_view(cl, c, r) == s0.col_view(
                        cl,
                        c,
                        r,
                    ),
                forall|cl: int|
                    0 <= cl < total ==> (#[trigger] s0.col_view(
                        cl,
                        addr.collection_num as int,
                        range,
                    )).len() == addr.offset as int,
            decreases total - col,
        {
            let ghost pool_before = self.bufferpool;
            self.bufferpool.write_col(col, addr.collection_num, range, all_data[col]);
            proof {
                let tt = s0.spec_total();
                let cc = addr.collection_num as int;
                let written = spec_pid64(col as int, tt, cc, range);
                lemma_pid64_faithful(col as int, tt, cc, range);
                assert forall|cl: int, c: int, r: WhichRange|
                    s0.cok(cl, c) && !(cl == col as int && c == cc && r
                        == range) implies #[trigger] self.bufferpool.col_view(cl, c, r)
                    == pool_before.col_view(cl, c, r) by {
                    lemma_pid64_faithful(cl, tt, c, r);
                    lemma_pid_injective(cl, c, r, col as int, cc, range, tt);
                    assert(spec_pid64(cl, tt, c, r) != written);
                }
            }
            col = col + 1;
        }
        proof {
            let tt = s0.spec_total();
            let nc = (n + 1) / (PAGE_SIZE as int);
            assert(self.count_of(range) == n + 1);
            vstd::arithmetic::div_mod::lemma_div_is_ordered(n + 1, 0x4000_0000, PAGE_SIZE as int);
            self.lemma_collection_ok(nc);
            assert forall|cl: int|
                0 <= cl < tt implies (#[trigger] self.col_view(cl, nc, range)).len() == (n + 1) % (
            PAGE_SIZE as int) by {
                if n % (PAGE_SIZE as int) + 1 < PAGE_SIZE as int {
                    assert(nc == addr.collection_num as int);
                } else {
                    assert(nc == addr.collection_num as int + 1);
                    assert(s0.cok(cl, nc));
                    assert(self.col_view(cl, nc, range) == s0.col_view(cl, nc, range));
                }
            }
            assert forall|cl: int, c: int|
                self.cok(cl, c) && c > nc implies (#[trigger] self.col_view(cl, c, range)).len()
                == 0 by {
                assert(s0.cok(cl, c));
                assert(c > addr.collection_num as int);
                assert(self.col_view(cl, c, range) == s0.col_view(cl, c, range));
            }
            let other = if range is Base {
                WhichRange::Tail
            } else {
                WhichRange::Base
            };
            let no = s0.count_of(other);
            lemma_rank_step(no);
            vstd::arithmetic::div_mod::lemma_div_is_ordered(no, 0x4000_0000, PAGE_SIZE as int);
            self.lemma_collection_ok(no / (PAGE_SIZE as int));
            assert forall|cl: int|
                0 <= cl < tt implies (#[trigger] self.col_view(cl, no / (PAGE_SIZE as int), other)).len()
                == no % (PAGE_SIZE as int) by {
                assert(s0.cok(cl, no / (PAGE_SIZE as int)));
                assert(self.col_view(cl, no / (PAGE_SIZE as int), other) == s0.col_view(
                    cl,
                    no / (PAGE_SIZE as int),
                    other,
                ));
            }
            assert forall|cl: int, c: int|
                self.cok(cl, c) && c > no / (PAGE_SIZE as int) implies (#[trigger] self.col_view(
                cl,
                c,
                other,
            )).len() == 0 by {
                assert(s0.cok(cl, c));
                assert(self.col_view(cl, c, other) == s0.col_view(cl, c, other));
            }
        }
        addr
    }
}

impl PageRanges {
    /// Position of a metadata column among all columns of a collection.
    pub open spec fn meta_col(self, m: MetaPage) -> int {
        self.spec_total() - (NUM_META_PAGES as int) + m.spec_index()
    }

    /// Reads one column of the record version stored at `addr` in `range`.
    pub fn read_single(&self, column: usize, addr: &PhysicalAddress, range: WhichRange) -> (v:
        Option<i64>)
        requires
            self.wf(),
            self.cok(column as int, addr.collection_num as int),
            addr.offset < self.col_view(column as int, addr.collection_num as int, range).len(),
        ensures
            v == self.col_view(column as int, addr.collection_num as int, range)[addr.offset as int],
    {
        self.bufferpool.read_col(column, *addr, range)
    }

    /// Reads one metadata column of the record version stored at `addr`.
    pub fn read_meta_col(&self, addr: &PhysicalAddress, col_type: MetaPage, range: WhichRange) -> (v:
        Option<i64>)
        requires
            self.wf(),
            self.cok(0, addr.collection_num as int),
            addr.offset < self.col_view(
                self.meta_col(col_type),
                addr.collection_num as int,
                range,
            ).len(),
        ensures
            v == self.col_view(self.meta_col(col_type), addr.collection_num as int, range)[
                addr.offset as int],
    {
        let column = self.bufferpool.total_cols() - NUM_META_PAGES + col_type.index();
        self.bufferpool.read_col(column, *addr, range)
    }

    /// The indirection pointer of the base record at `addr`.
    pub fn get_indirection(&self, addr: &PhysicalAddress) -> (v: Option<i64>)
        requires
            self.wf(),
            self.cok(0, addr.collection_num as int),
            addr.offset < self.col_view(
                self.meta_col(MetaPage::IndirectionCol),
                addr.collection_num as int,
                WhichRange::Base,
            ).len(),
        ensures
            v == self.col_view(
                self.meta_col(MetaPage::IndirectionCol),
                addr.collection_num as int,
                WhichRange::Base,
            )[addr.offset as int],
    {
        self.read_meta_col(addr, MetaPage::IndirectionCol, WhichRange::Base)
    }

    /// The indirection pointer of the tail record at `addr`.
    pub fn get_tail_indirection(&self, addr: &PhysicalAddress) -> (v: Option<i64>)
        requires
            self.wf(),
            self.cok(0, addr.collection_num as int),
            addr.offset < self.col_view(
                self.meta_col(MetaPage::IndirectionCol),
                addr.collection_num as int,
                WhichRange::Tail,
            ).len(),
        ensures
            v == self.col_view(
                self.meta_col(MetaPage::IndirectionCol),
                addr.collection_num as int,
                WhichRange::Tail,
            )[addr.offset as int],
    {
        self.read_meta_col(addr, MetaPage::IndirectionCol, WhichRange::Tail)
    }

    /// The schema-encoding bitmask of the tail record at `addr`; an absent
    /// value marks a tombstone.
    pub fn get_tail_schema_encoding(&self, addr: &PhysicalAddress) -> (v: Option<i64>)
        requires
            self.wf(),
            self.cok(0, addr.collection_num as int),
            addr.offset < self.col_view(
                self.meta_col(MetaPage::SchemaEncodingCol),
                addr.collection_num as int,
                WhichRange::Tail,
            ).len(),
        ensures
            v == self.col_view(
                self.meta_col(MetaPage::SchemaEncodingCol),
                addr.collection_num as int,
                WhichRange::Tail,
            )[addr.offset as int],
    {
        self.read_meta_col(addr, MetaPage::SchemaEncodingCol, WhichRange::Tail)
    }

    /// Repoints the indirection of the record version at `addr`: the only
    /// in-place update the engine ever performs.
    pub fn write_indirection(&mut self, addr: &PhysicalAddress, val: Option<i64>, range: WhichRange)
        requires
            old(self).wf(),
            old(self).cok(0, addr.collection_num as int),
            addr.offset < old(self).col_view(
                old(self).meta_col(MetaPage::IndirectionCol),
                addr.collection_num as int,
                range,
            ).len(),
        ensures
            final(self).wf(),
            final(self).spec_total() == old(self).spec_total(),
            forall|r: WhichRange| final(self).count_of(r) == old(self).count_of(r),
            final(self).col_view(
                old(self).meta_col(MetaPage::IndirectionCol),
                addr.collection_num as int,
                range,
            ) == old(self).col_view(
                old(self).meta_col(MetaPage::IndirectionCol),
                addr.collection_num as int,
                range,
            ).update(addr.offset as int, val),
            forall|col: int, c: int, r: WhichRange|
                old(self).cok(col, c) && !(col == old(self).meta_col(MetaPage::IndirectionCol) && c
                    == addr.collection_num as int && r == range)
                    ==> #[trigger] final(self).col_view(col, c, r) == old(self).col_view(col, c, r),
    {
        let ghost s0 = *old(self);
        let column = self.bufferpool.total_cols() - NUM_META_PAGES + 1;
        self.bufferpool.update_col(column, *addr, range, val);
        proof {
            let tt = s0.spec_total();
            let cc = addr.collection_num as int;
            let written = spec_pid64(column as int, tt, cc, range);
            lemma_pid64_faithful(column as int, tt, cc, range);
            assert forall|col: int, c: int, r: WhichRange|
                s0.cok(col, c) && !(col == column as int && c == cc && r
                    == range) implies #[trigger] self.col_view(col, c, r) == s0.col_view(
                col,
                c,
                r,
            ) by {
                lemma_pid64_faithful(col, tt, c, r);
                lemma_pid_injective(col, c, r, column as int, cc, range, tt);
                assert(spec_pid64(col, tt, c, r) != written);
            }
            assert forall|col: int|
                0 <= col < tt implies (#[trigger] self.col_view(
                col,
                self.count_of(range) / (PAGE_SIZE as int),
                range,
            )).len() == self.count_of(range) % (PAGE_SIZE as int) by {
                lemma_rank_step(self.count_of(range));
                vstd::arithmetic::div_mod::lemma_div_is_ordered(
                    self.count_of(range),
                    0x4000_0000,
                    PAGE_SIZE as int,
                );
                self.lemma_collection_ok(self.count_of(range) / (PAGE_SIZE as int));
                if col == column as int && self.count_of(range) / (PAGE_SIZE as int) == cc {
                } else {
                }
            }
            let other = if range is Base {
                WhichRange::Tail
            } else {
                WhichRange::Base
            };
            assert forall|col: int|
                0 <= col < tt implies (#[trigger] self.col_view(
                col,
                self.count_of(other) / (PAGE_SIZE as int),
                other,
            )).len() == self.count_of(other) % (PAGE_SIZE as int) by {
                lemma_rank_step(self.count_of(other));
                vstd::arithmetic::div_mod::lemma_div_is_ordered(
                    self.count_of(other),
                    0x4000_0000,
                    PAGE_SIZE as int,
                );
                self.lemma_collection_ok(self.count_of(other) / (PAGE_SIZE as int));
            }
        }
    }

    /// Appends a base record: the data columns plus synthesized metadata
    /// (RID, indirection pointing at itself, an empty schema encoding, and
    /// an absent start time).
    pub fn append_base(&mut self, data_cols: Vec<Option<i64>>, rid: i64) -> (addr: PhysicalAddress)
        requires
            old(self).wf(),
            data_cols@.len() == old(self).spec_total() - (NUM_META_PAGES as int),
            old(self).count_of(WhichRange::Base) + 1 < 0x4000_0000,
        ensures
            final(self).wf(),
            final(self).spec_total() == old(self).spec_total(),
            final(self).count_of(WhichRange::Base) == old(self).count_of(WhichRange::Base) + 1,
            final(self).count_of(WhichRange::Tail) == old(self).count_of(WhichRange::Tail),
            addr == nth_address(old(self).count_of(WhichRange::Base)),
            addr.wf(),
            old(self).cok(0, addr.collection_num as int),
            forall|col: int|
                0 <= col < old(self).spec_total() ==> (#[trigger] old(self).col_view(
                    col,
                    addr.collection_num as int,
                    WhichRange::Base,
                )).len() == addr.offset as int,
            forall|col: int|
                0 <= col < old(self).spec_total() ==> #[trigger] final(self).col_view(
                    col,
                    addr.collection_num as int,
                    WhichRange::Base,
                ) == old(self).col_view(col, addr.collection_num as int, WhichRange::Base).push(
                    record_cell(data_cols@, rid, rid as int, Some(0i64), col),
                ),
            forall|col: int, c: int, r: WhichRange|
                old(self).cok(col, c) && !(c == addr.collection_num as int && r
                    == WhichRange::Base) ==> #[trigger] final(self).col_view(col, c, r) == old(
                    self,
                ).col_view(col, c, r),
    {
        let ghost dc = data_cols@;
        let mut all_data = data_cols;
        all_data.push(Some(rid));
        all_data.push(Some(rid));
        all_data.push(Some(0));
        all_data.push(None);
        let addr = self.append(&all_data, WhichRange::Base);
        proof {
            assert forall|col: int|
                0 <= col < old(self).spec_total() implies all_data@[col] == record_cell(
                dc,
                rid,
                rid as int,
                Some(0i64),
                col,
            ) by {
                let nd = old(self).spec_total() - (NUM_META_PAGES as int);
                if col < nd {
                } else {
                }
            }
        }
        addr
    }

    /// Appends a tail record: the delta columns plus synthesized metadata
    /// (RID, indirection pointing at the previous version, the change
    /// bitmask or an absent value for a tombstone, and an absent start
    /// time).
    pub fn append_tail(
        &mut self,
        data_cols: Vec<Option<i64>>,
        rid: i64,
        indirection: i64,
        schema_encoding: Option<i64>,
    ) -> (addr: PhysicalAddress)
        requires
            old(self).wf(),
            data_cols@.len() == old(self).spec_total() - (NUM_META_PAGES as int),
            old(self).count_of(WhichRange::Tail) + 1 < 0x4000_0000,
        ensures
            final(self).wf(),
            final(self).spec_total() == old(self).spec_total(),
            final(self).count_of(WhichRange::Tail) == old(self).count_of(WhichRange::Tail) + 1,
            final(self).count_of(WhichRange::Base) == old(self).count_of(WhichRange::Base),
            addr == nth_address(old(self).count_of(WhichRange::Tail)),
            addr.wf(),
            old(self).cok(0, addr.collection_num as int),
            forall|col: int|
                0 <= col < old(self).spec_total() ==> (#[trigger] old(self).col_view(
                    col,
                    addr.collection_num as int,
                    WhichRange::Tail,
                )).len() == addr.offset as int,
            forall|col: int|
                0 <= col < old(self).spec_total() ==> #[trigger] final(self).col_view(
                    col,
                    addr.collection_num as int,
                    WhichRange::Tail,
                ) == old(self).col_view(col, addr.collection_num as int, WhichRange::Tail).push(
                    record_cell(data_cols@, rid, indirection as int, schema_encoding, col),
                ),
            forall|col: int, c: int, r: WhichRange|
                old(self).cok(col, c) && !(c == addr.collection_num as int && r
                    == WhichRange::Tail) ==> #[trigger] final(self).col_view(col, c, r) == old(
                    self,
                ).col_view(col, c, r),
    {
        let ghost dc = data_cols@;
        let mut all_data = data_cols;
        all_data.push(Some(rid));
        all_data.push(Some(indirection));
        all_data.push(schema_encoding);
        all_data.push(None);
        let addr = self.append(&all_data, WhichRange::Tail);
        proof {
            assert forall|col: int|
                0 <= col < old(self).spec_total() implies all_data@[col] == record_cell(
                dc,
                rid,
                indirection as int,
                schema_encoding,
                col,
            ) by {
            }
        }
        addr
    }
}

impl PageRanges {
    /// How many records have been appended to one range, executably.
    pub fn record_count(&self, range: WhichRange) -> (n: usize)
        requires
            self.wf(),
        ensures
            n as int == self.count_of(range),
    {
        let cur = match range {
            WhichRange::Base => self.base_next.current,
            WhichRange::Tail => self.tail_next.current,
        };
        proof {
            assert(cur.spec_rank() < 0x4000_0000);
        }
        cur.collection_num * PAGE_SIZE + cur.offset
    }

    /// The current slots of the page holding `col` of collection `c` in
    /// `range`, wherever the page lives.
    pub fn page_content(&self, column: usize, collection_num: usize, range: WhichRange) -> (v: Vec<
        Option<i64>,
    >)
        requires
            self.wf(),
            self.cok(column as int, collection_num as int),
        ensures
            v@ == self.col_view(column as int, collection_num as int, range),
    {
        let pid = Pid::new(column, self.bufferpool.total_cols(), collection_num, range);
        proof {
            lemma_pid64_faithful(
                column as int,
                self.spec_total(),
                collection_num as int,
                range,
            );
        }
        self.bufferpool.page_content(pid.get())
    }

    /// Drains every resident frame into the spill store, so a shutdown sees
    /// every page's current content persisted: afterwards nothing stays
    /// only in a memory frame.
    pub fn flush(&mut self)
        requires
            old(self).wf(),
        ensures
            final(self).wf(),
            final(self).resident_frames() == 0,
            final(self).spec_total() == old(self).spec_total(),
            forall|r: WhichRange| final(self).count_of(r) == old(self).count_of(r),
            forall|col: int, c: int, r: WhichRange|
                #[trigger] final(self).col_view(col, c, r) == old(self).col_view(col, c, r),
    {
        self.bufferpool.evict_all();
        proof {
            assert forall|col: int, c: int, r: WhichRange| #[trigger] self.col_view(col, c, r)
                == old(self).col_view(col, c, r) by {
                assert(self.bufferpool.view_at(
                    spec_pid64(col, old(self).spec_total(), c, r),
                ) == old(self).bufferpool.view_at(spec_pid64(col, old(self).spec_total(), c, r)));
            }
        }
    }
}

/// The value stored in column `col` of a record version whose data columns
/// are `vals`, whose record identifier is `rid`, whose indirection points at
/// `ind`, and whose schema encoding is `schema`: the data value for a data
/// column, then the four metadata values in their fixed order.
pub open spec fn record_cell(
    vals: Seq<Option<i64>>,
    rid: i64,
    ind: int,
    schema: Option<i64>,
    col: int,
) -> Option<i64> {
    let nd = vals.len() as int;
    if col < nd {
        vals[col]
    } else if col == nd {
        Some(rid)
    } else if col == nd + 1 {
        Some(ind as i64)
    } else if col == nd + 2 {
        schema
    } else {
        None
    }
}

} // verus!
