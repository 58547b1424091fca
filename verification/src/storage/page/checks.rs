//! The layout checks that a fuzzing run applies to a slotted page after
//! every operation.
use vstd::prelude::*;

use crate::storage::page::slotted_page::{
    dir_end, free_end, free_space, slot_count, SlottedPage, HEADER_SIZE, SLOT_SIZE,
};
use crate::storage::PAGE_SIZE;

verus! {

/// Checks the page layout: the slot directory ends inside the page and
/// before the record area, the record area ends inside the page, the free
/// space is the gap between the two, and every slot can be read. Every
/// page the library produces passes.
pub fn check_invariants(page: &SlottedPage) -> (ok: bool)
    requires
        page.wf(),
    ensures
        ok,
        ok == (dir_end(page.bytes()) <= PAGE_SIZE && free_end(page.bytes()) <= PAGE_SIZE
            && dir_end(page.bytes()) <= free_end(page.bytes())
            && free_space(page.bytes()) == free_end(page.bytes()) - dir_end(page.bytes())),
{
    let slot_count = page.get_slot_count();
    let free_end = page.free_end() as usize;
    let free_space = page.free_space() as usize;
    let slot_directory_end = HEADER_SIZE + slot_count as usize * SLOT_SIZE;
    let mut ok = slot_directory_end <= PAGE_SIZE;
    ok = ok && free_end <= PAGE_SIZE;
    ok = ok && slot_directory_end <= free_end;
    if ok {
        let expected_free_space = free_end - slot_directory_end;
        ok = free_space == expected_free_space;
    }
    let mut slot: u16 = 0;
    while slot < slot_count
        invariant
            page.wf(),
            ok,
            slot <= slot_count,
            slot_count == crate::storage::page::slotted_page::slot_count(page.bytes()),
        decreases slot_count - slot,
    {
        proof {
            assert(crate::storage::page::slotted_page::slot_readable(page.bytes(), slot as int));
        }
        let record = page.get(slot);
        if record.len() != 0 {
            ok = ok && record.len() != 0;
        }
        slot = slot + 1;
    }
    ok
}

} // verus!
