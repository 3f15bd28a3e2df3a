//! The map from virtual pages to physical ones.

use std::collections::BTreeMap;

use vstd::prelude::*;

use crate::address::{PhysicalAddr, VirtualAddr};
use crate::bits::{align_down, round_down};
use crate::layout::PAGE_SIZE;
use crate::memory::errors::{MemoryError, Result};

verus! {

/// Where a virtual page leads. An entry that is not present keeps its address but faults.
#[derive(Clone, Copy, Debug, PartialEq, Eq, Structural)]
pub struct PageEntry {
    pub paddr: u64,
    pub present: bool,
}

/// The page that holds `vaddr`.
pub open spec fn page_of(vaddr: u64) -> u64 {
    round_down(vaddr as int, PAGE_SIZE as int) as u64
}

/// A page table with pages of one size.
pub trait PageTable: Sized {
    /// The entry of each mapped page, by the page's address.
    closed spec fn mappings(&self) -> Map<u64, PageEntry> {
        arbitrary()
    }

    /// Maps a page that is not mapped yet.
    fn map_2mb(&mut self, vaddr: VirtualAddr, paddr: PhysicalAddr) -> (r: Result<()>)
        ensures
            if old(self).mappings().contains_key(page_of(vaddr.0)) {
                &&& r == Err::<(), MemoryError>(MemoryError::AlreadyMapped { addr: vaddr.0 })
                &&& final(self).mappings() == old(self).mappings()
            } else {
                &&& r == Ok::<(), MemoryError>(())
                &&& final(self).mappings() == old(self).mappings().insert(
                    page_of(vaddr.0),
                    (PageEntry { paddr: paddr.0, present: true }),
                )
            },
    ;

    /// Removes a page, present or not, and gives back where it led.
    fn unmap_2mb(&mut self, vaddr: VirtualAddr) -> (r: Result<PhysicalAddr>)
        ensures
            if old(self).mappings().contains_key(page_of(vaddr.0)) {
                &&& r == Ok::<PhysicalAddr, MemoryError>(PhysicalAddr(old(self).mappings()[page_of(vaddr.0)].paddr))
                &&& final(self).mappings() == old(self).mappings().remove(page_of(vaddr.0))
            } else {
                &&& r == Err::<PhysicalAddr, MemoryError>(MemoryError::NotMapped { addr: vaddr.0 })
                &&& final(self).mappings() == old(self).mappings()
            },
    ;

    /// Where the page that holds `vaddr` leads, if it is mapped and present.
    fn get_if_present(&self, vaddr: VirtualAddr) -> (r: Option<PhysicalAddr>)
        ensures
            r == (if self.mappings().contains_key(page_of(vaddr.0)) && self.mappings()[page_of(vaddr.0)].present {
                Some(PhysicalAddr(self.mappings()[page_of(vaddr.0)].paddr))
            } else {
                None
            }),
    ;

    /// Makes a mapped page fault or stop faulting.
    fn set_present_2mb(&mut self, vaddr: VirtualAddr, present: bool) -> (r: Result<()>)
        ensures
            if old(self).mappings().contains_key(page_of(vaddr.0)) {
                &&& r is Ok
                &&& final(self).mappings() == old(self).mappings().insert(
                    page_of(vaddr.0),
                    (PageEntry { paddr: old(self).mappings()[page_of(vaddr.0)].paddr, present }),
                )
            } else {
                &&& r == Err::<(), MemoryError>(MemoryError::NotMapped { addr: vaddr.0 })
                &&& final(self).mappings() == old(self).mappings()
            },
    ;
}

/// A page table kept as a map of its leaves.
pub struct LeafTable {
    leaves: BTreeMap<u64, PageEntry>,
}

impl LeafTable {
    pub fn new() -> (r: Self)
        ensures
            r.mappings() == Map::<u64, PageEntry>::empty(),
    {
        LeafTable { leaves: BTreeMap::new() }
    }
}

impl PageTable for LeafTable {
    closed spec fn mappings(&self) -> Map<u64, PageEntry> {
        self.leaves@
    }

    fn map_2mb(&mut self, vaddr: VirtualAddr, paddr: PhysicalAddr) -> (r: Result<()>) {
        broadcast use vstd::std_specs::btree::group_btree_axioms;

        let page: u64 = align_down(vaddr.as_u64(), PAGE_SIZE);
        if self.leaves.contains_key(&page) {
            return Err(MemoryError::AlreadyMapped { addr: vaddr.as_u64() });
        }
        self.leaves.insert(page, PageEntry { paddr: paddr.as_u64(), present: true });
        Ok(())
    }

    fn unmap_2mb(&mut self, vaddr: VirtualAddr) -> (r: Result<PhysicalAddr>) {
        broadcast use vstd::std_specs::btree::group_btree_axioms;

        let page: u64 = align_down(vaddr.as_u64(), PAGE_SIZE);
        match self.leaves.remove(&page) {
            Some(entry) => Ok(PhysicalAddr::new(entry.paddr)),
            None => Err(MemoryError::NotMapped { addr: vaddr.as_u64() }),
        }
    }

    fn get_if_present(&self, vaddr: VirtualAddr) -> (r: Option<PhysicalAddr>) {
        broadcast use vstd::std_specs::btree::group_btree_axioms;

        let page: u64 = align_down(vaddr.as_u64(), PAGE_SIZE);
        match self.leaves.get(&page) {
            Some(entry) => if entry.present {
                Some(PhysicalAddr::new(entry.paddr))
            } else {
                None
            },
            None => None,
        }
    }

    fn set_present_2mb(&mut self, vaddr: VirtualAddr, present: bool) -> (r: Result<()>) {
        broadcast use vstd::std_specs::btree::group_btree_axioms;

        let page: u64 = align_down(vaddr.as_u64(), PAGE_SIZE);
        match self.leaves.get(&page) {
            Some(entry) => {
                let paddr: u64 = entry.paddr;
                self.leaves.insert(page, PageEntry { paddr, present });
                Ok(())
            },
            None => Err(MemoryError::NotMapped { addr: vaddr.as_u64() }),
        }
    }
}

} // verus!
