//! The RID -> physical-address directory: a dense, growable array indexed
//! directly by record identifier. Slots are written once at record creation
//! and never reused; a hard delete clears the slot, while logical deletion
//! leaves the entry intact and pointing at the tombstone tail.

use vstd::prelude::*;
use crate::error::DbError;
use crate::page_range::PhysicalAddress;
use crate::table::PROJECTED_NUM_RECORDS;

verus! {

pub struct PageDirectory {
    directory: Vec<Option<PhysicalAddress>>,
}

impl View for PageDirectory {
    type V = Seq<Option<PhysicalAddress>>;

    closed spec fn view(&self) -> Seq<Option<PhysicalAddress>> {
        self.directory@
    }
}

impl PageDirectory {
    /// The committed address for a record identifier, if any.
    pub open spec fn spec_get(self, rid: int) -> Option<PhysicalAddress> {
        if 0 <= rid < self@.len() {
            self@[rid]
        } else {
            None
        }
    }

    /// An empty directory, pre-sized for the projected record count.
    pub fn new() -> (pd: PageDirectory)
        ensures
            forall|rid: int| pd.spec_get(rid) is None,
            pd@.len() == PROJECTED_NUM_RECORDS,
    {
        let mut directory: Vec<Option<PhysicalAddress>> = Vec::new();
        let mut i: usize = 0;
        while i < PROJECTED_NUM_RECORDS
            invariant
                i <= PROJECTED_NUM_RECORDS,
                directory@.len() == i,
                forall|k: int| 0 <= k < i ==> directory@[k] is None,
            decreases PROJECTED_NUM_RECORDS - i,
        {
            directory.push(None);
            i = i + 1;
        }
        PageDirectory { directory }
    }

    /// Registers the address of a freshly appended record. The directory
    /// grows as needed, so record identifiers may exceed the projected size.
    pub fn add(&mut self, rid: i64, address: PhysicalAddress)
        requires
            0 <= rid < 0x4000_0000,
        ensures
            final(self).spec_get(rid as int) == Some(address),
            forall|k: int| k != rid ==> final(self).spec_get(k) == old(self).spec_get(k),
            final(self)@.len() >= old(self)@.len(),
    {
        let idx = rid as usize;
        while self.directory.len() <= idx
            invariant
                idx < usize::MAX,
                self.directory@.len() >= old(self)@.len() ==> true,
                forall|k: int|
                    0 <= k < old(self)@.len() && k < self.directory@.len() ==> self.directory@[k]
                        == old(self)@[k],
                forall|k: int|
                    old(self)@.len() <= k < self.directory@.len() ==> self.directory@[k] is None,
                self.directory@.len() >= old(self)@.len() || self.directory@ == old(self)@,
            decreases idx + 1 - self.directory@.len(),
        {
            self.directory.push(None);
        }
        self.directory.set(idx, Some(address));
    }

    /// Clears a slot (hard delete). Fails when the identifier lies outside
    /// the directory.
    pub fn delete(&mut self, rid: i64) -> (r: Result<(), DbError>)
        ensures
            0 <= rid < old(self)@.len() ==> r == Ok::<(), DbError>(()) && final(self)@ == old(
                self,
            )@.update(rid as int, None),
            !(0 <= rid < old(self)@.len()) ==> r == Err::<(), DbError>(
                DbError::RecordNotFound(rid),
            ) && *final(self) == *old(self),
    {
        if rid < 0 {
            return Err(DbError::RecordNotFound(rid));
        }
        if rid as u64 >= self.directory.len() as u64 {
            return Err(DbError::RecordNotFound(rid));
        }
        let idx = rid as usize;
        self.directory.set(idx, None);
        Ok(())
    }

    /// Looks up the committed address for a record identifier.
    pub fn get(&self, rid: i64) -> (r: Result<PhysicalAddress, DbError>)
        ensures
            r == match self.spec_get(rid as int) {
                Some(addr) => Ok::<PhysicalAddress, DbError>(addr),
                None => Err::<PhysicalAddress, DbError>(DbError::RecordNotFound(rid)),
            },
    {
        if rid < 0 {
            return Err(DbError::RecordNotFound(rid));
        }
        if rid as u64 >= self.directory.len() as u64 {
            return Err(DbError::RecordNotFound(rid));
        }
        let idx = rid as usize;
        match self.directory[idx] {
            Some(addr) => Ok(addr),
            None => Err(DbError::RecordNotFound(rid)),
        }
    }
}

impl Default for PageDirectory {
    fn default() -> (pd: PageDirectory)
        ensures
            forall|rid: int| pd.spec_get(rid) is None,
    {
        PageDirectory::new()
    }
}

} // verus!
