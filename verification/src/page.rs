//! A page is the unit of buffering and disk I/O: a fixed-capacity,
//! append-only sequence of up to `PAGE_SIZE` nullable 64-bit integer slots.
//! In-place update of a slot is permitted only for the indirection metadata
//! column; the caller enforces that restriction.

use vstd::prelude::*;
use crate::error::PageError;

verus! {

/// Number of slots a page can hold before writes fail with `Full`.
pub const PAGE_SIZE: usize = 512;

/// A fixed-capacity column segment of nullable 64-bit integers. The dirty
/// flag records whether the in-memory contents have diverged from the
/// persisted copy since the page was last materialized.
#[derive(Debug, Clone)]
pub struct Page {
    data: Vec<Option<i64>>,
    nullable: bool,
    dirty: bool,
}

impl View for Page {
    type V = Seq<Option<i64>>;

    closed spec fn view(&self) -> Seq<Option<i64>> {
        self.data@
    }
}

impl Page {
    pub closed spec fn spec_nullable(&self) -> bool {
        self.nullable
    }

    pub closed spec fn spec_dirty(&self) -> bool {
        self.dirty
    }

    /// A fresh, empty page. `nullable` fixes at creation time whether null
    /// slots may be appended.
    pub fn new(nullable: bool) -> (p: Page)
        ensures
            p@ =~= Seq::<Option<i64>>::empty(),
            p.spec_nullable() == nullable,
            !p.spec_dirty(),
    {
        Page { data: Vec::new(), nullable, dirty: false }
    }

    /// Number of slots written so far.
    pub fn len(&self) -> (n: usize)
        ensures
            n == self@.len(),
    {
        self.data.len()
    }

    pub fn nullable(&self) -> (b: bool)
        ensures
            b == self.spec_nullable(),
    {
        self.nullable
    }

    pub fn is_dirty(&self) -> (b: bool)
        ensures
            b == self.spec_dirty(),
    {
        self.dirty
    }

    pub fn set_dirty(&mut self, d: bool)
        ensures
            final(self)@ == old(self)@,
            final(self).spec_nullable() == old(self).spec_nullable(),
            final(self).spec_dirty() == d,
    {
        self.dirty = d;
    }

    /// True while the page still has room for another slot; callers use this
    /// to decide whether a new page collection must be allocated.
    pub fn has_capacity(&self) -> (b: bool)
        ensures
            b == (self@.len() < PAGE_SIZE),
    {
        self.data.len() < PAGE_SIZE
    }

    /// Appends a value. Fails with `Full` once `PAGE_SIZE` slots are held,
    /// and with `NullViolation` when a null is appended to a non-nullable
    /// page; on failure the page is unchanged.
    pub fn write(&mut self, val: Option<i64>) -> (r: Result<(), PageError>)
        ensures
            final(self).spec_nullable() == old(self).spec_nullable(),
            old(self)@.len() >= PAGE_SIZE ==> r == Err::<(), PageError>(PageError::Full)
                && *final(self) == *old(self),
            old(self)@.len() < PAGE_SIZE && val is None && !old(self).spec_nullable() ==> r
                == Err::<(), PageError>(PageError::NullViolation) && *final(self) == *old(self),
            old(self)@.len() < PAGE_SIZE && (val is Some || old(self).spec_nullable()) ==> r
                == Ok::<(), PageError>(()) && final(self)@ == old(self)@.push(val)
                && final(self).spec_dirty(),
    {
        if !self.has_capacity() {
            return Err(PageError::Full);
        }
        if val.is_none() && !self.nullable {
            return Err(PageError::NullViolation);
        }
        self.data.push(val);
        self.dirty = true;
        Ok(())
    }

    /// Reads the slot at `index`, failing when no such slot has been written.
    pub fn read(&self, index: usize) -> (r: Result<Option<i64>, PageError>)
        ensures
            index < self@.len() ==> r == Ok::<Option<i64>, PageError>(self@[index as int]),
            index >= self@.len() ==> r == Err::<Option<i64>, PageError>(
                PageError::IndexOutOfBounds(index),
            ),
    {
        if index < self.data.len() {
            Ok(self.data[index])
        } else {
            Err(PageError::IndexOutOfBounds(index))
        }
    }

    /// Overwrites an existing slot in place. Only the indirection metadata
    /// column is ever updated this way; all other columns are append-only.
    pub fn update(&mut self, index: usize, val: Option<i64>) -> (r: Result<(), PageError>)
        ensures
            final(self).spec_nullable() == old(self).spec_nullable(),
            index < old(self)@.len() ==> r == Ok::<(), PageError>(()) && final(self)@ == old(
                self,
            )@.update(index as int, val) && final(self).spec_dirty(),
            index >= old(self)@.len() ==> r == Err::<(), PageError>(
                PageError::IndexOutOfBounds(index),
            ) && *final(self) == *old(self),
    {
        if index < self.data.len() {
            self.data.set(index, val);
            self.dirty = true;
            Ok(())
        } else {
            Err(PageError::IndexOutOfBounds(index))
        }
    }
}

impl Default for Page {
    /// The default page is nullable, matching the buffer pool's frames,
    /// whose slots all hold optional values.
    fn default() -> (p: Page)
        ensures
            p@ =~= Seq::<Option<i64>>::empty(),
            p.spec_nullable(),
            !p.spec_dirty(),
    {
        Page::new(true)
    }
}

} // verus!
