//! The buffer pool: a bounded cache of frames (page id -> column data)
//! with least-recently-used eviction and write-back of dirty frames to the
//! spill store, which stands in for the on-disk page files within a run.
//! Frames are materialized lazily: a page id that was never written reads
//! as an empty page. For persistence across runs, `page_content` hands any
//! page's current slots out (the table builds the per-page byte streams
//! from them at shutdown), and `seed_page` plants a page's content into
//! the store at startup.
//!
//! The frame cache is `lru::LruCache`, held behind trusted wrappers whose
//! contracts state what the crate's own source shows about the contents.

use vstd::prelude::*;
use std::collections::BTreeMap;
use lru::LruCache;
use crate::page::PAGE_SIZE;
use crate::page_range::{PhysicalAddress, Pid, WhichRange, spec_pid64, lemma_pid64_faithful};
use crate::table::NUM_META_PAGES;

verus! {

broadcast use vstd::std_specs::btree::group_btree_axioms, vstd::laws_cmp::group_laws_cmp;

/// Bound on the number of resident frames.
pub const NUMBER_OF_FRAMES: usize = 32;

#[verifier::external_type_specification]
#[verifier::external_body]
#[verifier::reject_recursive_types(K)]
#[verifier::reject_recursive_types(V)]
#[verifier::reject_recursive_types(S)]
pub struct ExLruCache<K, V, S>(LruCache<K, V, S>);

#[verifier::external_type_specification]
#[verifier::external_body]
pub struct ExLruDefaultHasher(lru::DefaultHasher);

/// What the frame cache holds: each resident page id mapped to that frame's
/// column data.
pub uninterp spec fn frames_of(c: LruCache<i64, Vec<Option<i64>>>) -> Map<i64, Seq<Option<i64>>>;

/// The bound the frame cache was created with.
pub uninterp spec fn frame_cap_of(c: LruCache<i64, Vec<Option<i64>>>) -> int;

/// Relies on lru::LruCache::new: a fresh cache with the given capacity
/// holds nothing.
#[verifier::external_body]
fn cache_new(cap: usize) -> (c: LruCache<i64, Vec<Option<i64>>>)
    requires
        1 <= cap,
    ensures
        frames_of(c) =~= Map::empty(),
        frame_cap_of(c) == cap as int,
{
    LruCache::new(std::num::NonZeroUsize::new(cap).unwrap())
}

/// Relies on lru::LruCache::contains: whether a key is resident.
#[verifier::external_body]
fn cache_contains(c: &LruCache<i64, Vec<Option<i64>>>, pid: i64) -> (r: bool)
    ensures
        r == frames_of(*c).dom().contains(pid),
{
    c.contains(&pid)
}

/// Relies on lru::LruCache::peek: borrows the value of a resident key
/// without touching recency.
#[verifier::external_body]
fn cache_peek<'a>(c: &'a LruCache<i64, Vec<Option<i64>>>, pid: i64) -> (r: Option<
    &'a Vec<Option<i64>>,
>)
    ensures
        match r {
            Some(v) => frames_of(*c).dom().contains(pid) && v@ == frames_of(*c)[pid],
            None => !frames_of(*c).dom().contains(pid),
        },
{
    c.peek(&pid)
}

/// Relies on lru::LruCache::pop: removes a key and returns its value.
#[verifier::external_body]
fn cache_pop(c: &mut LruCache<i64, Vec<Option<i64>>>, pid: i64) -> (r: Option<Vec<Option<i64>>>)
    ensures
        frame_cap_of(*final(c)) == frame_cap_of(*old(c)),
        match r {
            Some(v) => frames_of(*old(c)).dom().contains(pid) && v@ == frames_of(*old(c))[pid]
                && frames_of(*final(c)) == frames_of(*old(c)).remove(pid),
            None => !frames_of(*old(c)).dom().contains(pid) && frames_of(*final(c)) == frames_of(
                *old(c),
            ),
        },
{
    c.pop(&pid)
}

/// Relies on lru::LruCache::pop_lru: removes and returns the
/// least-recently-used entry, or nothing when the cache is empty. Which
/// entry is least recently used is not tracked here, so the contract only
/// pins the popped entry down as one of the resident entries.
#[verifier::external_body]
fn cache_pop_lru(c: &mut LruCache<i64, Vec<Option<i64>>>) -> (r: Option<(i64, Vec<Option<i64>>)>)
    ensures
        frame_cap_of(*final(c)) == frame_cap_of(*old(c)),
        match r {
            Some(kv) => frames_of(*old(c)).dom().contains(kv.0) && kv.1@ == frames_of(
                *old(c),
            ).index(kv.0) && frames_of(*final(c)) == frames_of(*old(c)).remove(kv.0),
            None => frames_of(*old(c)).dom() == Set::<i64>::empty() && frames_of(*final(c))
                == frames_of(*old(c)),
        },
{
    c.pop_lru()
}

/// Relies on lru::LruCache::push: inserts or replaces a key's value. The
/// callers never push a fresh key into a full cache, so no entry is ever
/// displaced by the crate's capacity handling.
#[verifier::external_body]
fn cache_push(c: &mut LruCache<i64, Vec<Option<i64>>>, pid: i64, v: Vec<Option<i64>>)
    requires
        frames_of(*old(c)).dom().contains(pid) || frames_of(*old(c)).dom().len() < frame_cap_of(
            *old(c),
        ),
    ensures
        frame_cap_of(*final(c)) == frame_cap_of(*old(c)),
        frames_of(*final(c)) == frames_of(*old(c)).insert(pid, v@),
{
    let _ = c.push(pid, v);
}

/// An element-for-element copy of a frame's column data.
fn copy_vals(v: &Vec<Option<i64>>) -> (r: Vec<Option<i64>>)
    ensures
        r@ == v@,
{
    let mut r: Vec<Option<i64>> = Vec::new();
    let mut i: usize = 0;
    while i < v.len()
        invariant
            i <= v@.len(),
            r@ == v@.take(i as int),
        decreases v@.len() - i,
    {
        r.push(v[i]);
        proof {
            assert(r@ =~= v@.take(i as int + 1));
        }
        i = i + 1;
    }
    proof {
        assert(v@.take(v@.len() as int) =~= v@);
    }
    r
}

/// The bounded frame cache with write-back eviction.
pub struct BufferPool {
    frames: LruCache<i64, Vec<Option<i64>>>,
    dirty: BTreeMap<i64, bool>,
    spilled: BTreeMap<i64, Vec<Option<i64>>>,
    size: usize,
    total_cols: usize,
}

impl BufferPool {
    /// The content of the page identified by `pid`, wherever it lives: a
    /// resident frame, the spill store, or nowhere yet (an empty page).
    pub closed spec fn view_at(self, pid: i64) -> Seq<Option<i64>> {
        if frames_of(self.frames).dom().contains(pid) {
            frames_of(self.frames)[pid]
        } else if self.spilled@.contains_key(pid) {
            self.spilled@[pid]@
        } else {
            Seq::empty()
        }
    }

    pub closed spec fn spec_total_cols(self) -> int {
        self.total_cols as int
    }

    /// How many frames are resident.
    pub closed spec fn resident_count(self) -> int {
        frames_of(self.frames).dom().len() as int
    }

    /// Resident frames stay within the bound; a clean frame always agrees
    /// with its persisted copy, so eviction never loses data; dirty marks
    /// only refer to resident frames.
    pub closed spec fn wf(self) -> bool {
        &&& self.size == frames_of(self.frames).dom().len()
        &&& frames_of(self.frames).dom().finite()
        &&& frame_cap_of(self.frames) == NUMBER_OF_FRAMES
        &&& self.size <= NUMBER_OF_FRAMES
        &&& forall|pid: i64|
            #[trigger] self.dirty@.contains_key(pid) ==> frames_of(self.frames).dom().contains(pid)
        &&& forall|pid: i64|
            frames_of(self.frames).dom().contains(pid) && !self.dirty@.contains_key(pid) ==> {
                if self.spilled@.contains_key(pid) {
                    self.spilled@[pid]@ == frames_of(self.frames)[pid]
                } else {
                    frames_of(self.frames)[pid] == Seq::<Option<i64>>::empty()
                }
            }
    }

    pub fn new() -> (bp: BufferPool)
        ensures
            bp.wf(),
            bp.spec_total_cols() == 0,
            forall|pid: i64| bp.view_at(pid) == Seq::<Option<i64>>::empty(),
    {
        let bp = BufferPool {
            frames: cache_new(NUMBER_OF_FRAMES),
            dirty: BTreeMap::new(),
            spilled: BTreeMap::new(),
            size: 0,
            total_cols: 0,
        };
        proof {
            assert(frames_of(bp.frames).dom() =~= Set::<i64>::empty());
        }
        bp
    }

    /// Fixes the number of pages per collection: the data columns plus the
    /// metadata columns.
    pub fn set_total_cols(&mut self, cols: usize)
        requires
            old(self).wf(),
            cols <= 60,
        ensures
            final(self).wf(),
            final(self).spec_total_cols() == cols + NUM_META_PAGES,
            forall|pid: i64| #[trigger] final(self).view_at(pid) == old(self).view_at(pid),
    {
        self.total_cols = cols + NUM_META_PAGES;
    }

    /// Pages per collection, as fixed by `set_total_cols`.
    pub fn total_cols(&self) -> (n: usize)
        ensures
            n as int == self.spec_total_cols(),
    {
        self.total_cols
    }

    pub fn is_full(&self) -> (b: bool)
        requires
            self.wf(),
        ensures
            b == (self.resident_count() == NUMBER_OF_FRAMES),
    {
        self.size == NUMBER_OF_FRAMES
    }

    /// Evicts one frame, writing it back to the spill store when dirty.
    /// No page content is lost: every page reads the same afterward.
    fn evict_one(&mut self)
        requires
            old(self).wf(),
            old(self).size >= 1,
        ensures
            final(self).wf(),
            final(self).size == old(self).size - 1,
            final(self).spec_total_cols() == old(self).spec_total_cols(),
            forall|pid: i64| #[trigger] final(self).view_at(pid) == old(self).view_at(pid),
            forall|p: i64|
                frames_of(final(self).frames).dom().contains(p) ==> frames_of(
                    old(self).frames,
                ).dom().contains(p),
    {
        let popped = cache_pop_lru(&mut self.frames);
        match popped {
            Some((pid, v)) => {
                let is_dirty = self.dirty.contains_key(&pid);
                if is_dirty {
                    self.spilled.insert(pid, v);
                    self.dirty.remove(&pid);
                } else {
                }
                self.size = self.size - 1;
            },
            None => {
                proof {
                    assert(frames_of(old(self).frames).dom().len() >= 1);
                    assert(false);
                }
            },
        }
    }

    /// Guarantees that `pid` is resident: reloads it from the spill store
    /// or materializes a blank page, evicting one frame first if the cache
    /// is at capacity.
    fn ensure_resident(&mut self, pid: i64)
        requires
            old(self).wf(),
        ensures
            final(self).wf(),
            final(self).spec_total_cols() == old(self).spec_total_cols(),
            frames_of(final(self).frames).dom().contains(pid),
            forall|p: i64| #[trigger] final(self).view_at(p) == old(self).view_at(p),
    {
        if cache_contains(&self.frames, pid) {
            return;
        }
        if self.size >= NUMBER_OF_FRAMES {
            self.evict_one();
        }
        let ghost s1 = *self;
        proof {
            assert(!frames_of(s1.frames).dom().contains(pid));
        }
        let spilled_copy: Option<Vec<Option<i64>>> = match self.spilled.get(&pid) {
            Some(v) => Some(copy_vals(v)),
            None => None,
        };
        let ghost loaded: Seq<Option<i64>> = if spilled_copy is Some {
            spilled_copy->Some_0@
        } else {
            Seq::empty()
        };
        proof {
            if s1.spilled@.contains_key(pid) {
                assert(spilled_copy is Some && loaded == s1.spilled@[pid]@);
            } else {
                assert(spilled_copy is None);
            }
        }
        match spilled_copy {
            Some(v) => {
                cache_push(&mut self.frames, pid, v);
            },
            None => {
                cache_push(&mut self.frames, pid, Vec::new());
            },
        }
        self.size = self.size + 1;
        proof {
            let s2 = *self;
            assert(frames_of(s2.frames) == frames_of(s1.frames).insert(pid, loaded));
            assert(frames_of(s2.frames).dom() =~= frames_of(s1.frames).dom().insert(pid));
            assert forall|q: i64| #[trigger] s2.dirty@.contains_key(q) implies frames_of(
                s2.frames,
            ).dom().contains(q) by {
                assert(s1.dirty@.contains_key(q));
            }
            assert forall|q: i64|
                frames_of(s2.frames).dom().contains(q) && !s2.dirty@.contains_key(q) implies {
                if s2.spilled@.contains_key(q) {
                    s2.spilled@[q]@ == frames_of(s2.frames)[q]
                } else {
                    frames_of(s2.frames)[q] == Seq::<Option<i64>>::empty()
                }
            } by {
                if q == pid {
                    if s1.spilled@.contains_key(pid) {
                        assert(frames_of(s2.frames)[pid] == s1.spilled@[pid]@);
                    } else {
                        assert(frames_of(s2.frames)[pid] == Seq::<Option<i64>>::empty());
                    }
                } else {
                    assert(frames_of(s1.frames).dom().contains(q));
                    assert(frames_of(s2.frames)[q] == frames_of(s1.frames)[q]);
                }
            }
            assert(s2.wf());
            assert forall|p: i64| #[trigger] s2.view_at(p) == s1.view_at(p) by {
                if p == pid {
                    assert(s2.view_at(pid) == loaded);
                    assert(s1.view_at(pid) == loaded);
                } else {
                    if frames_of(s1.frames).dom().contains(p) {
                        assert(frames_of(s2.frames)[p] == frames_of(s1.frames)[p]);
                    }
                }
            }
            assert forall|p: i64| #[trigger] s2.view_at(p) == old(self).view_at(p) by {
                assert(s2.view_at(p) == s1.view_at(p));
                assert(s1.view_at(p) == old(self).view_at(p));
            }
        }
    }

    /// Reads one slot of one page, wherever the page lives: the resident
    /// frame when there is one, else the spilled copy.
    fn read_cell(&self, pid: i64, offset: usize) -> (v: Option<i64>)
        requires
            self.wf(),
            offset < self.view_at(pid).len(),
        ensures
            v == self.view_at(pid)[offset as int],
    {
        match cache_peek(&self.frames, pid) {
            Some(v) => v[offset],
            None => {
                match self.spilled.get(&pid) {
                    Some(v) => v[offset],
                    None => {
                        proof {
                            assert(false);
                        }
                        None
                    },
                }
            },
        }
    }

    /// Appends one value to one page and marks the frame dirty.
    fn write_cell(&mut self, pid: i64, val: Option<i64>)
        requires
            old(self).wf(),
            old(self).view_at(pid).len() < PAGE_SIZE,
        ensures
            final(self).wf(),
            final(self).spec_total_cols() == old(self).spec_total_cols(),
            final(self).view_at(pid) == old(self).view_at(pid).push(val),
            forall|p: i64| p != pid ==> #[trigger] final(self).view_at(p) == old(self).view_at(p),
    {
        self.ensure_resident(pid);
        let ghost s1 = *self;
        proof {
            assert(s1.view_at(pid) == old(self).view_at(pid));
            assert(s1.view_at(pid) == frames_of(s1.frames)[pid]);
        }
        match cache_pop(&mut self.frames, pid) {
            Some(mut v) => {
                v.push(val);
                let ghost newdata = v@;
                proof {
                    assert(frames_of(self.frames).dom().len() < NUMBER_OF_FRAMES) by {
                        assert(frames_of(self.frames).dom() =~= frames_of(
                            s1.frames,
                        ).dom().remove(pid));
                    }
                }
                cache_push(&mut self.frames, pid, v);
                self.dirty.insert(pid, true);
                proof {
                    let s2 = *self;
                    assert(frames_of(s2.frames) =~= frames_of(s1.frames).insert(pid, newdata));
                    assert(frames_of(s2.frames).dom() =~= frames_of(s1.frames).dom());
                    assert forall|q: i64| #[trigger] s2.dirty@.contains_key(q) implies frames_of(
                        s2.frames,
                    ).dom().contains(q) by {
                        if q != pid {
                            assert(s1.dirty@.contains_key(q));
                        }
                    }
                    assert forall|q: i64|
                        frames_of(s2.frames).dom().contains(q) && !s2.dirty@.contains_key(
                            q,
                        ) implies {
                        if s2.spilled@.contains_key(q) {
                            s2.spilled@[q]@ == frames_of(s2.frames)[q]
                        } else {
                            frames_of(s2.frames)[q] == Seq::<Option<i64>>::empty()
                        }
                    } by {
                        assert(q != pid);
                        assert(frames_of(s1.frames).dom().contains(q));
                        assert(!s1.dirty@.contains_key(q));
                        assert(frames_of(s2.frames)[q] == frames_of(s1.frames)[q]);
                    }
                    assert(s2.wf());
                    assert(s2.view_at(pid) == newdata);
                    assert forall|p: i64| p != pid implies #[trigger] s2.view_at(p)
                        == old(self).view_at(p) by {
                        if frames_of(s1.frames).dom().contains(p) {
                            assert(frames_of(s2.frames)[p] == frames_of(s1.frames)[p]);
                        }
                        assert(s2.view_at(p) == s1.view_at(p));
                        assert(s1.view_at(p) == old(self).view_at(p));
                    }
                }
            },
            None => {
                proof {
                    assert(false);
                }
            },
        }
    }

    /// Overwrites one existing slot of one page and marks the frame dirty.
    fn update_cell(&mut self, pid: i64, offset: usize, val: Option<i64>)
        requires
            old(self).wf(),
            offset < old(self).view_at(pid).len(),
        ensures
            final(self).wf(),
            final(self).spec_total_cols() == old(self).spec_total_cols(),
            final(self).view_at(pid) == old(self).view_at(pid).update(offset as int, val),
            forall|p: i64| p != pid ==> #[trigger] final(self).view_at(p) == old(self).view_at(p),
    {
        self.ensure_resident(pid);
        let ghost s1 = *self;
        proof {
            assert(s1.view_at(pid) == old(self).view_at(pid));
            assert(s1.view_at(pid) == frames_of(s1.frames)[pid]);
        }
        match cache_pop(&mut self.frames, pid) {
            Some(mut v) => {
                v.set(offset, val);
                let ghost newdata = v@;
                proof {
                    assert(frames_of(self.frames).dom().len() < NUMBER_OF_FRAMES) by {
                        assert(frames_of(self.frames).dom() =~= frames_of(
                            s1.frames,
                        ).dom().remove(pid));
                    }
                }
                cache_push(&mut self.frames, pid, v);
                self.dirty.insert(pid, true);
                proof {
                    let s2 = *self;
                    assert(frames_of(s2.frames) =~= frames_of(s1.frames).insert(pid, newdata));
                    assert(frames_of(s2.frames).dom() =~= frames_of(s1.frames).dom());
                    assert forall|q: i64| #[trigger] s2.dirty@.contains_key(q) implies frames_of(
                        s2.frames,
                    ).dom().contains(q) by {
                        if q != pid {
                            assert(s1.dirty@.contains_key(q));
                        }
                    }
                    assert forall|q: i64|
                        frames_of(s2.frames).dom().contains(q) && !s2.dirty@.contains_key(
                            q,
                        ) implies {
                        if s2.spilled@.contains_key(q) {
                            s2.spilled@[q]@ == frames_of(s2.frames)[q]
                        } else {
                            frames_of(s2.frames)[q] == Seq::<Option<i64>>::empty()
                        }
                    } by {
                        assert(q != pid);
                        assert(frames_of(s1.frames).dom().contains(q));
                        assert(!s1.dirty@.contains_key(q));
                        assert(frames_of(s2.frames)[q] == frames_of(s1.frames)[q]);
                    }
                    assert(s2.wf());
                    assert(s2.view_at(pid) == newdata);
                    assert forall|p: i64| p != pid implies #[trigger] s2.view_at(p)
                        == old(self).view_at(p) by {
                        if frames_of(s1.frames).dom().contains(p) {
                            assert(frames_of(s2.frames)[p] == frames_of(s1.frames)[p]);
                        }
                        assert(s2.view_at(p) == s1.view_at(p));
                        assert(s1.view_at(p) == old(self).view_at(p));
                    }
                }
            },
            None => {
                proof {
                    assert(false);
                }
            },
        }
    }

    /// Whether a (column, collection) pair is within the engine's bounds,
    /// so that its page identifier arithmetic stays exact.
    pub open spec fn col_ok(self, col: int, c: int) -> bool {
        &&& 0 <= col < self.spec_total_cols()
        &&& 0 <= c
        &&& self.spec_total_cols() * (c + 1) < 0x4000_0000
    }

    /// The content of the page holding `col` of collection `c` in `range`.
    pub open spec fn col_view(self, col: int, c: int, range: WhichRange) -> Seq<Option<i64>> {
        self.view_at(spec_pid64(col, self.spec_total_cols(), c, range))
    }

    /// Reads the slot of one column of one record version.
    pub fn read_col(&self, col: usize, addr: PhysicalAddress, range: WhichRange) -> (v: Option<
        i64,
    >)
        requires
            self.wf(),
            self.col_ok(col as int, addr.collection_num as int),
            addr.offset < self.col_view(col as int, addr.collection_num as int, range).len(),
        ensures
            v == self.col_view(col as int, addr.collection_num as int, range)[addr.offset as int],
    {
        let pid = Pid::new(col, self.total_cols, addr.collection_num, range);
        proof {
            lemma_pid64_faithful(
                col as int,
                self.spec_total_cols(),
                addr.collection_num as int,
                range,
            );
        }
        self.read_cell(pid.get(), addr.offset)
    }

    /// Appends one value to one column page of one collection.
    pub fn write_col(&mut self, col: usize, c: usize, range: WhichRange, val: Option<i64>)
        requires
            old(self).wf(),
            old(self).col_ok(col as int, c as int),
            old(self).col_view(col as int, c as int, range).len() < PAGE_SIZE,
        ensures
            final(self).wf(),
            final(self).spec_total_cols() == old(self).spec_total_cols(),
            final(self).col_view(col as int, c as int, range) == old(self).col_view(
                col as int,
                c as int,
                range,
            ).push(val),
            forall|p: i64|
                p != spec_pid64(col as int, old(self).spec_total_cols(), c as int, range)
                    ==> #[trigger] final(self).view_at(p) == old(self).view_at(p),
    {
        let pid = Pid::new(col, self.total_cols, c, range);
        proof {
            lemma_pid64_faithful(col as int, self.spec_total_cols(), c as int, range);
        }
        self.write_cell(pid.get(), val);
    }

    /// Overwrites the slot of one column of one record version in place.
    pub fn update_col(&mut self, col: usize, addr: PhysicalAddress, range: WhichRange, val: Option<i64>)
        requires
            old(self).wf(),
            old(self).col_ok(col as int, addr.collection_num as int),
            addr.offset < old(self).col_view(col as int, addr.collection_num as int, range).len(),
        ensures
            final(self).wf(),
            final(self).spec_total_cols() == old(self).spec_total_cols(),
            final(self).col_view(col as int, addr.collection_num as int, range) == old(
                self,
            ).col_view(col as int, addr.collection_num as int, range).update(
                addr.offset as int,
                val,
            ),
            forall|p: i64|
                p != spec_pid64(
                    col as int,
                    old(self).spec_total_cols(),
                    addr.collection_num as int,
                    range,
                ) ==> #[trigger] final(self).view_at(p) == old(self).view_at(p),
    {
        let pid = Pid::new(col, self.total_cols, addr.collection_num, range);
        proof {
            lemma_pid64_faithful(
                col as int,
                self.spec_total_cols(),
                addr.collection_num as int,
                range,
            );
        }
        self.update_cell(pid.get(), addr.offset, val);
    }

    /// The current slots of the page identified by `pid`, wherever the page
    /// lives; a page never written reads as empty.
    pub fn page_content(&self, pid: i64) -> (v: Vec<Option<i64>>)
        requires
            self.wf(),
        ensures
            v@ == self.view_at(pid),
    {
        match cache_peek(&self.frames, pid) {
            Some(v) => copy_vals(v),
            None => {
                match self.spilled.get(&pid) {
                    Some(v) => copy_vals(v),
                    None => Vec::new(),
                }
            },
        }
    }

    /// Plants a page's content into the spill store, as a startup reload
    /// does for a page file read back from disk. Any resident frame for
    /// that page is discarded in favour of the seeded content. This stays
    /// a pool-level operation: a table's pages are tied to its record
    /// history, so seeding through a table could contradict it.
    pub fn seed_page(&mut self, pid: i64, data: Vec<Option<i64>>)
        requires
            old(self).wf(),
        ensures
            final(self).wf(),
            final(self).spec_total_cols() == old(self).spec_total_cols(),
            final(self).view_at(pid) == data@,
            forall|p: i64| p != pid ==> #[trigger] final(self).view_at(p) == old(self).view_at(p),
    {
        let popped = cache_pop(&mut self.frames, pid);
        match popped {
            Some(_) => {
                self.size = self.size - 1;
            },
            None => {},
        }
        self.dirty.remove(&pid);
        self.spilled.insert(pid, data);
        proof {
            let s2 = *self;
            assert forall|q: i64| #[trigger] s2.dirty@.contains_key(q) implies frames_of(
                s2.frames,
            ).dom().contains(q) by {
                assert(old(self).dirty@.contains_key(q) && q != pid);
            }
            assert forall|q: i64|
                frames_of(s2.frames).dom().contains(q) && !s2.dirty@.contains_key(q) implies {
                if s2.spilled@.contains_key(q) {
                    s2.spilled@[q]@ == frames_of(s2.frames)[q]
                } else {
                    frames_of(s2.frames)[q] == Seq::<Option<i64>>::empty()
                }
            } by {
                assert(q != pid);
                assert(frames_of(old(self).frames).dom().contains(q));
                assert(frames_of(s2.frames)[q] == frames_of(old(self).frames)[q]);
            }
            assert(s2.wf());
            assert forall|p: i64| p != pid implies #[trigger] s2.view_at(p) == old(
                self,
            ).view_at(p) by {
                if frames_of(old(self).frames).dom().contains(p) {
                    assert(frames_of(s2.frames)[p] == frames_of(old(self).frames)[p]);
                }
            }
        }
    }

    /// Drains every frame into the spill store; used at shutdown so that
    /// the persistence layer sees every page's current content there.
    pub fn evict_all(&mut self)
        requires
            old(self).wf(),
        ensures
            final(self).wf(),
            final(self).resident_count() == 0,
            final(self).spec_total_cols() == old(self).spec_total_cols(),
            forall|pid: i64| #[trigger] final(self).view_at(pid) == old(self).view_at(pid),
    {
        while self.size != 0
            invariant
                self.wf(),
                self.spec_total_cols() == old(self).spec_total_cols(),
                forall|pid: i64| #[trigger] self.view_at(pid) == old(self).view_at(pid),
            decreases self.size,
        {
            self.evict_one();
        }
    }
}

} // verus!
