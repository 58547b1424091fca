//! The map from resident pages to the frames that hold them.
use vstd::prelude::*;

use std::collections::HashMap;
use vstd::std_specs::iter::IteratorSpec;

use crate::storage::buffer_pool::clock_replacer::FrameId;
use crate::storage::buffer_pool::frame::PageId;

verus! {

broadcast use vstd::std_specs::hash::group_hash_axioms;

#[derive(Debug, PartialEq, Eq, Structural)]
pub enum PageTableError {
    LockPoisoned,
    PoisonedMapping,
    OldPageMissing,
    PageAlreadyExist,
}

pub struct PageTable {
    table: HashMap<PageId, FrameId>,
}

impl PageTable {
    /// The mapping from page to frame.
    pub closed spec fn mapping(&self) -> Map<PageId, FrameId> {
        self.table@
    }

    pub fn new() -> (t: Self)
        ensures
            t.mapping() == Map::<PageId, FrameId>::empty(),
            t.mapping().dom().finite(),
    {
        Self { table: HashMap::new() }
    }

    pub fn insert(&mut self, page_id: PageId, frame_id: FrameId) -> (result: Result<(), PageTableError>)
        ensures
            result is Ok,
            final(self).mapping() == old(self).mapping().insert(page_id, frame_id),
            final(self).mapping().dom().finite(),
    {
        self.table.insert(page_id, frame_id);
        Ok(())
    }

    /// Moves `frame_id` from `old_page_id` to `new_page_id`. Refused when
    /// `old_page_id` is not mapped, is mapped to another frame, or when
    /// `new_page_id` is mapped already.
    pub fn replace(&mut self, old_page_id: PageId, new_page_id: PageId, frame_id: FrameId) -> (result: Result<(), PageTableError>)
        ensures
            ({
                let m = old(self).mapping();
                if !m.contains_key(old_page_id) {
                    result == Err::<(), PageTableError>(PageTableError::OldPageMissing)
                } else if m[old_page_id] != frame_id {
                    result == Err::<(), PageTableError>(PageTableError::PoisonedMapping)
                } else if m.contains_key(new_page_id) {
                    result == Err::<(), PageTableError>(PageTableError::PageAlreadyExist)
                } else {
                    result is Ok
                }
            }),
            result is Ok ==> final(self).mapping() == old(self).mapping().remove(old_page_id).insert(new_page_id, frame_id),
            result is Err ==> final(self).mapping() == old(self).mapping(),
            final(self).mapping().dom().finite(),
    {
        match self.table.get(&old_page_id) {
            Some(old_map) => {
                if *old_map == frame_id {
                    if !self.table.contains_key(&new_page_id) {
                        self.table.remove(&old_page_id);
                        self.table.insert(new_page_id, frame_id);
                        return Ok(());
                    }
                    return Err(PageTableError::PageAlreadyExist);
                }
                Err(PageTableError::PoisonedMapping)
            },
            None => Err(PageTableError::OldPageMissing),
        }
    }

    pub fn get_frame_id(&self, page_id: PageId) -> (result: Result<Option<FrameId>, PageTableError>)
        ensures
            self.mapping().contains_key(page_id) ==> result == Ok::<Option<FrameId>, PageTableError>(
                Some(self.mapping()[page_id]),
            ),
            !self.mapping().contains_key(page_id) ==> result == Ok::<Option<FrameId>, PageTableError>(None),
            self.mapping().dom().finite(),
    {
        match self.table.get(&page_id) {
            Some(frame) => Ok(Some(*frame)),
            None => Ok(None),
        }
    }

    /// The mapped pages, each once, in no particular order.
    pub fn get_resident_ids(&self) -> (result: Result<Vec<PageId>, PageTableError>)
        ensures
            result matches Ok(ids) && ids@.to_set() == self.mapping().dom() && ids@.no_duplicates(),
    {
        let mut ids: Vec<PageId> = Vec::new();
        let ghost ks = vstd::std_specs::hash::spec_keys_iter(&self.table).remaining();
        for key in it: self.table.keys()
            invariant
                it.seq() == ks,
                ids@ == it.seq().take(it.index() as int).map_values(|k: &PageId| *k),
        {
            ids.push(*key);
            proof {
                assert(ids@ =~= it.seq().take(it.index() + 1).map_values(|k: &PageId| *k));
            }
        }
        assert(ids@ =~= ks.map_values(|k: &PageId| *k));
        assert(ids@ =~= ks.unref());
        assert(ids@.no_duplicates()) by {
            assert forall|i: int, j: int| 0 <= i < ids@.len() && 0 <= j < ids@.len() && i != j implies ids@[i] != ids@[j] by {
                assert(ks[i] != ks[j]);
            }
        }
        Ok(ids)
    }

    pub fn contains(&self, page_id: PageId) -> (result: Result<bool, PageTableError>)
        ensures
            result == Ok::<bool, PageTableError>(self.mapping().contains_key(page_id)),
    {
        Ok(self.table.contains_key(&page_id))
    }

    pub fn remove_page(&mut self, page_id: PageId) -> (result: Result<(), PageTableError>)
        ensures
            result is Ok,
            final(self).mapping() == old(self).mapping().remove(page_id),
            final(self).mapping().dom().finite(),
    {
        self.table.remove(&page_id);
        Ok(())
    }

    /// The number of mapped pages.
    pub fn len(&self) -> (result: Result<usize, PageTableError>)
        ensures
            result matches Ok(n) && n == self.mapping().len(),
            self.mapping().dom().finite(),
    {
        Ok(self.table.len())
    }
}

impl Default for PageTable {
    fn default() -> (t: Self)
        ensures
            t.mapping() == Map::<PageId, FrameId>::empty(),
            t.mapping().dom().finite(),
    {
        Self::new()
    }
}

} // verus!
