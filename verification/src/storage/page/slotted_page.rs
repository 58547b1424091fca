//! A slotted page: a fixed-size byte page holding variable-length records.
//!
//! Layout (all integers little-endian `u16`):
//! - bytes 0..2: number of slots;
//! - bytes 2..4: `free_end`, where the record area begins;
//! - from byte 4: the slot directory, four bytes per slot
//!   (record offset, then record length);
//! - records are written downwards from the end of the page.
use vstd::prelude::*;

use crate::storage::PAGE_SIZE;

verus! {

pub type SlotId = u16;

pub const HEADER_SIZE: usize = 4;

pub const SLOT_SIZE: usize = 4;

pub const MAX_AVAILABLE_SLOTTED_PAGE_SPACE: usize = 4092;

/// The little-endian `u16` stored at `b[off]`, `b[off + 1]`.
pub open spec fn u16_at(b: Seq<u8>, off: int) -> int {
    b[off] + 256 * b[off + 1]
}

/// `b` with the little-endian `u16` value `v` stored at `off`.
pub open spec fn with_u16(b: Seq<u8>, off: int, v: int) -> Seq<u8> {
    b.update(off, (v % 256) as u8).update(off + 1, (v / 256) as u8)
}

/// `b` with the bytes `r` stored from position `off` on.
pub open spec fn with_bytes(b: Seq<u8>, off: int, r: Seq<u8>) -> Seq<u8> {
    Seq::new(b.len(), |k: int| if off <= k < off + r.len() { r[k - off] } else { b[k] })
}

/// Number of slots in the directory.
pub open spec fn slot_count(b: Seq<u8>) -> int {
    u16_at(b, 0)
}

/// Start of the record area.
pub open spec fn free_end(b: Seq<u8>) -> int {
    u16_at(b, 2)
}

/// First byte after the slot directory.
pub open spec fn dir_end(b: Seq<u8>) -> int {
    HEADER_SIZE + SLOT_SIZE * slot_count(b)
}

/// Byte position of the directory entry of slot `i`.
pub open spec fn slot_pos(i: int) -> int {
    HEADER_SIZE + SLOT_SIZE * i
}

/// Record offset stored in the directory entry of slot `i`.
pub open spec fn slot_offset(b: Seq<u8>, i: int) -> int {
    u16_at(b, slot_pos(i))
}

/// Record length stored in the directory entry of slot `i`.
pub open spec fn slot_len(b: Seq<u8>, i: int) -> int {
    u16_at(b, slot_pos(i) + 2)
}

/// The bytes that slot `i` designates.
pub open spec fn slot_record(b: Seq<u8>, i: int) -> Seq<u8> {
    b.subrange(slot_offset(b, i), slot_offset(b, i) + slot_len(b, i))
}

/// The records of all slots, in slot order (a deleted slot holds the empty record).
pub open spec fn records(b: Seq<u8>) -> Seq<Seq<u8>> {
    Seq::new(slot_count(b) as nat, |i: int| slot_record(b, i))
}

/// Bytes between the slot directory and the record area.
pub open spec fn free_space(b: Seq<u8>) -> int {
    free_end(b) - dir_end(b)
}

/// A slot whose directory entry and designated bytes lie inside the page.
pub open spec fn slot_readable(b: Seq<u8>, i: int) -> bool {
    &&& 0 <= i
    &&& slot_pos(i) + SLOT_SIZE <= PAGE_SIZE
    &&& slot_offset(b, i) + slot_len(b, i) <= PAGE_SIZE
}

/// The layout facts that every page keeps: the directory ends before the
/// record area, which ends at the end of the page, and every slot
/// designates bytes inside the page.
pub open spec fn page_wf(b: Seq<u8>) -> bool {
    &&& b.len() == PAGE_SIZE
    &&& dir_end(b) <= free_end(b) <= PAGE_SIZE
    &&& forall|i: int| 0 <= i < slot_count(b) ==> #[trigger] slot_readable(b, i)
}

/// Two slots whose records do not share a byte.
pub open spec fn records_disjoint(b: Seq<u8>, i: int, j: int) -> bool {
    slot_offset(b, i) + slot_len(b, i) <= slot_offset(b, j)
        || slot_offset(b, j) + slot_len(b, j) <= slot_offset(b, i)
}

/// A page laid out as insertions and deletions leave it: every non-empty
/// record lies in the record area, and no two non-empty records overlap.
pub open spec fn page_tidy(b: Seq<u8>) -> bool {
    &&& page_wf(b)
    &&& forall|i: int|
        0 <= i < slot_count(b) && slot_len(b, i) > 0 ==> free_end(b) <= #[trigger] slot_offset(b, i)
    &&& forall|i: int, j: int|
        0 <= i < slot_count(b) && 0 <= j < slot_count(b) && i != j && slot_len(b, i) > 0
            && slot_len(b, j) > 0 ==> #[trigger] records_disjoint(b, i, j)
}

/// The bytes of a fresh page: no slots, and the record area empty.
pub open spec fn empty_page_bytes() -> Seq<u8> {
    with_u16(Seq::new(PAGE_SIZE as nat, |k: int| 0u8), 2, PAGE_SIZE as int)
}

/// The bytes after inserting `r` into the page `b`: the record is written
/// just below `free_end`, `free_end` moves down to it, the slot count grows
/// by one and the new slot designates the record.
pub open spec fn inserted_bytes(b: Seq<u8>, r: Seq<u8>) -> Seq<u8> {
    let sc = slot_count(b);
    let off = free_end(b) - r.len();
    with_u16(
        with_u16(
            with_u16(with_u16(with_bytes(b, off, r), 2, off), 0, sc + 1),
            slot_pos(sc),
            off,
        ),
        slot_pos(sc) + 2,
        r.len() as int,
    )
}

/// The bytes after setting the directory entry of slot `i` to (0, 0).
pub open spec fn deleted_bytes(b: Seq<u8>, i: int) -> Seq<u8> {
    with_u16(with_u16(b, slot_pos(i), 0), slot_pos(i) + 2, 0)
}

/// Total length of the records of slots `0 .. n`.
pub open spec fn live_bytes(b: Seq<u8>, n: int) -> int
    decreases n,
{
    if n <= 0 {
        0
    } else {
        live_bytes(b, n - 1) + slot_len(b, n - 1)
    }
}

/// Compaction can run to its end without leaving the page: the directory
/// followed by all records fits in the page.
pub open spec fn compact_fits(b: Seq<u8>) -> bool {
    dir_end(b) + live_bytes(b, slot_count(b)) <= PAGE_SIZE
}

/// The bytes after compaction has handled slots `i ..` of a page with
/// `n` slots, the next record going to `dest`. Each non-empty record, in
/// slot order, is copied to `dest` and its slot updated; at the end
/// `free_end` is set to the final `dest`.
pub open spec fn compacted_from(b: Seq<u8>, n: int, i: int, dest: int) -> Seq<u8>
    decreases n - i,
{
    if i >= n {
        with_u16(b, 2, dest)
    } else if slot_len(b, i) == 0 {
        compacted_from(b, n, i + 1, dest)
    } else {
        let len = slot_len(b, i);
        let moved = with_bytes(b, dest, slot_record(b, i));
        compacted_from(
            with_u16(with_u16(moved, slot_pos(i), dest), slot_pos(i) + 2, len),
            n,
            i + 1,
            dest + len,
        )
    }
}

/// The bytes after compacting the page `b`.
pub open spec fn compacted_bytes(b: Seq<u8>) -> Seq<u8> {
    compacted_from(b, slot_count(b), 0, dir_end(b))
}

/// The place compaction packs record `k` to, just after the directory
/// and the records before it, does not meet record `j`.
pub open spec fn packed_apart(b: Seq<u8>, k: int, j: int) -> bool {
    let d = dir_end(b) + live_bytes(b, k);
    d + slot_len(b, k) <= slot_offset(b, j) || slot_offset(b, j) + slot_len(b, j) <= d
}

/// Packing the records one after another from the end of the directory
/// overwrites none that is still to be packed: every non-empty record lies
/// after the directory, and each one's new place misses every later one.
pub open spec fn packing_keeps_records(b: Seq<u8>) -> bool {
    let n = slot_count(b);
    &&& forall|j: int| 0 <= j < n && slot_len(b, j) > 0 ==> dir_end(b) <= #[trigger] slot_offset(b, j)
    &&& forall|k: int, j: int|
        0 <= k < j < n && slot_len(b, k) > 0 && slot_len(b, j) > 0 ==> #[trigger] packed_apart(b, k, j)
}

#[derive(Debug, PartialEq, Eq, Structural)]
pub enum SlottedPageError {
    /// The record and its directory entry do not fit in the free space.
    OutOfSpace,
    /// The slot is not in the directory.
    NoSuchSlot,
}

pub struct SlottedPage {
    data: [u8; PAGE_SIZE],
}

proof fn lemma_u16_write(v: u16)
    ensures
        (v & 0xff) == v % 256,
        (v >> 8u16) == v / 256,
{
    assert((v & 0xff) == v % 256) by (bit_vector);
    assert((v >> 8u16) == v / 256) by (bit_vector);
}

fn read_u16(data: &[u8; PAGE_SIZE], off: usize) -> (v: u16)
    requires
        off + 1 < PAGE_SIZE,
    ensures
        v == u16_at(data@, off as int),
{
    let b0 = data[off];
    let b1 = data[off + 1];
    assert(((b0 as u16) | ((b1 as u16) << 8u16)) == b0 + 256 * b1) by (bit_vector);
    (b0 as u16) | ((b1 as u16) << 8)
}

fn write_u16(data: &mut [u8; PAGE_SIZE], off: usize, v: u16)
    requires
        off + 1 < PAGE_SIZE,
    ensures
        final(data)@ == with_u16(old(data)@, off as int, v as int),
{
    proof {
        lemma_u16_write(v);
    }
    data[off] = (v & 0xff) as u8;
    data[off + 1] = (v >> 8) as u8;
}

fn write_bytes(data: &mut [u8; PAGE_SIZE], off: usize, r: &[u8])
    requires
        off + r@.len() <= PAGE_SIZE,
    ensures
        final(data)@ == with_bytes(old(data)@, off as int, r@),
{
    let mut k: usize = 0;
    while k < r.len()
        invariant
            off + r@.len() <= PAGE_SIZE,
            k <= r@.len(),
            data@ == with_bytes(old(data)@, off as int, r@.subrange(0, k as int)),
        decreases r@.len() - k,
    {
        data[off + k] = r[k];
        k = k + 1;
        assert(data@ =~= with_bytes(old(data)@, off as int, r@.subrange(0, k as int)));
    }
    assert(r@.subrange(0, r@.len() as int) =~= r@);
}

proof fn lemma_u16_at_with_u16(b: Seq<u8>, off: int, v: int, p: int)
    requires
        0 <= off,
        off + 1 < b.len(),
        0 <= p,
        p + 1 < b.len(),
        0 <= v < 65536,
    ensures
        with_u16(b, off, v).len() == b.len(),
        p == off ==> u16_at(with_u16(b, off, v), p) == v,
        (p + 1 < off || off + 1 < p) ==> u16_at(with_u16(b, off, v), p) == u16_at(b, p),
{
}

/// A fresh page has no slots, its record area is empty and all of its
/// usable space is free.
pub proof fn lemma_empty_page()
    ensures
        slot_count(empty_page_bytes()) == 0,
        free_end(empty_page_bytes()) == PAGE_SIZE,
        free_space(empty_page_bytes()) == MAX_AVAILABLE_SLOTTED_PAGE_SPACE,
        page_tidy(empty_page_bytes()),
        records(empty_page_bytes()) == Seq::<Seq<u8>>::empty(),
{
    let z = Seq::new(PAGE_SIZE as nat, |k: int| 0u8);
    lemma_u16_at_with_u16(z, 2, PAGE_SIZE as int, 2);
    lemma_u16_at_with_u16(z, 2, PAGE_SIZE as int, 0);
    assert(records(empty_page_bytes()) =~= Seq::<Seq<u8>>::empty());
}

impl SlottedPage {
    /// The page's bytes.
    pub closed spec fn bytes(&self) -> Seq<u8> {
        self.data@
    }

    /// The page keeps its layout facts.
    pub open spec fn wf(&self) -> bool {
        page_wf(self.bytes())
    }

    pub fn new() -> (page: Self)
        ensures
            page.bytes() == empty_page_bytes(),
            page.wf(),
            page_tidy(page.bytes()),
            slot_count(page.bytes()) == 0,
            free_end(page.bytes()) == PAGE_SIZE,
            records(page.bytes()) == Seq::<Seq<u8>>::empty(),
    {
        let mut data = [0u8; PAGE_SIZE];
        assert(data@ =~= Seq::new(PAGE_SIZE as nat, |k: int| 0u8));
        write_u16(&mut data, 2, PAGE_SIZE as u16);
        let page = Self { data };
        assert(records(page.bytes()) =~= Seq::<Seq<u8>>::empty());
        page
    }

    pub fn get_slot_count(&self) -> (n: u16)
        ensures
            n == slot_count(self.bytes()),
    {
        read_u16(&self.data, 0)
    }

    pub fn free_end(&self) -> (e: u16)
        ensures
            e == free_end(self.bytes()),
    {
        read_u16(&self.data, 2)
    }

    pub fn free_space(&self) -> (s: u16)
        requires
            self.wf(),
        ensures
            s == free_space(self.bytes()),
    {
        let slot_count = self.get_slot_count();
        let free_end = self.free_end();
        assert(SLOT_SIZE as u16 == 4 && HEADER_SIZE as u16 == 4);
        free_end - (slot_count * SLOT_SIZE as u16 + HEADER_SIZE as u16)
    }

    fn read_slot(&self, slot: SlotId) -> (entry: (u16, u16))
        requires
            slot_pos(slot as int) + SLOT_SIZE <= PAGE_SIZE,
        ensures
            entry.0 == slot_offset(self.bytes(), slot as int),
            entry.1 == slot_len(self.bytes(), slot as int),
    {
        let slot_offset = HEADER_SIZE + slot as usize * SLOT_SIZE;
        let tuple_offset = read_u16(&self.data, slot_offset);
        let tuple_length = read_u16(&self.data, slot_offset + 2);
        (tuple_offset, tuple_length)
    }

    pub fn insert(&mut self, record: &[u8]) -> (result: Result<SlotId, SlottedPageError>)
        requires
            old(self).wf(),
            record@.len() + SLOT_SIZE <= usize::MAX,
        ensures
            final(self).wf(),
            result is Ok <==> record@.len() + SLOT_SIZE <= free_space(old(self).bytes()),
            final(self).bytes() == page_after_call(old(self).bytes(), (true, record@, 0)),
            result matches Ok(s) ==> {
                let ob = old(self).bytes();
                let nb = final(self).bytes();
                &&& s == slot_count(ob)
                &&& nb == inserted_bytes(ob, record@)
                &&& slot_count(nb) == s + 1
                &&& free_end(nb) == free_end(ob) - record@.len()
                &&& slot_record(nb, s as int) == record@
                &&& forall|i: int| 0 <= i < s ==> slot_offset(nb, i) == slot_offset(ob, i)
                &&& forall|i: int| 0 <= i < s ==> slot_len(nb, i) == slot_len(ob, i)
                &&& page_tidy(ob) ==> page_tidy(nb) && records(nb) == records(ob).push(record@)
            },
            result is Err ==> result == Err::<SlotId, SlottedPageError>(SlottedPageError::OutOfSpace)
                && final(self).bytes() == old(self).bytes(),
    {
        let required_size = record.len() + SLOT_SIZE;
        let free_size = self.free_space() as usize;
        if free_size < required_size {
            return Err(SlottedPageError::OutOfSpace);
        }
        proof {
            lemma_insert(self.bytes(), record@);
        }
        let free_end = self.free_end() as usize;
        let tuple_offset = free_end - record.len();
        write_bytes(&mut self.data, tuple_offset, record);
        write_u16(&mut self.data, 2, tuple_offset as u16);
        let slot_count = self.get_slot_count();
        write_u16(&mut self.data, 0, slot_count + 1);
        self.write_slot(slot_count, tuple_offset as u16, record.len() as u16);
        Ok(slot_count)
    }

    pub fn get(&self, slot: SlotId) -> (r: &[u8])
        requires
            slot_readable(self.bytes(), slot as int),
        ensures
            r@ == slot_record(self.bytes(), slot as int),
    {
        let (tuple_offset, tuple_length) = self.read_slot(slot);
        &self.data[tuple_offset as usize..(tuple_offset + tuple_length) as usize]
    }

    pub fn delete(&mut self, slot: SlotId) -> (result: Result<(), SlottedPageError>)
        requires
            old(self).wf(),
        ensures
            final(self).wf(),
            result is Ok <==> slot < slot_count(old(self).bytes()),
            final(self).bytes() == page_after_call(old(self).bytes(), (false, Seq::<u8>::empty(), slot)),
            result is Ok ==> {
                let ob = old(self).bytes();
                let nb = final(self).bytes();
                &&& nb == deleted_bytes(ob, slot as int)
                &&& slot_count(nb) == slot_count(ob)
                &&& free_end(nb) == free_end(ob)
                &&& slot_record(nb, slot as int) == Seq::<u8>::empty()
                &&& forall|i: int| 0 <= i < slot_count(ob) && i != slot ==> slot_offset(nb, i) == slot_offset(ob, i)
                &&& forall|i: int| 0 <= i < slot_count(ob) && i != slot ==> slot_len(nb, i) == slot_len(ob, i)
                &&& page_tidy(ob) ==> page_tidy(nb)
                    && records(nb) == records(ob).update(slot as int, Seq::<u8>::empty())
            },
            result is Err ==> result == Err::<(), SlottedPageError>(SlottedPageError::NoSuchSlot)
                && final(self).bytes() == old(self).bytes(),
    {
        let slot_count = self.get_slot_count();
        if slot >= slot_count {
            return Err(SlottedPageError::NoSuchSlot);
        }
        proof {
            lemma_delete(self.bytes(), slot as int);
        }
        self.write_slot(slot, 0, 0);
        Ok(())
    }

    /// The slot directory followed by every record fits in the page, so
    /// that `compact` can run.
    pub fn compaction_fits(&self) -> (fits: bool)
        requires
            self.wf(),
        ensures
            fits == compact_fits(self.bytes()),
    {
        let count = self.get_slot_count();
        let mut live: usize = 0;
        let mut i: u16 = 0;
        while i < count
            invariant
                page_wf(self.bytes()),
                count == slot_count(self.bytes()),
                i <= count,
                live == live_bytes(self.bytes(), i as int),
                live <= i * 65535,
            decreases count - i,
        {
            proof {
                assert(slot_readable(self.bytes(), i as int));
            }
            let (_offset, length) = self.read_slot(i);
            live = live + length as usize;
            i = i + 1;
        }
        HEADER_SIZE + SLOT_SIZE * count as usize + live <= PAGE_SIZE
    }

    #[verifier::spinoff_prover]
    #[verifier::rlimit(40)]
    pub fn compact(&mut self)
        requires
            old(self).wf(),
            compact_fits(old(self).bytes()),
        ensures
            final(self).wf(),
            final(self).bytes() == compacted_bytes(old(self).bytes()),
            slot_count(final(self).bytes()) == slot_count(old(self).bytes()),
            free_end(final(self).bytes()) == dir_end(old(self).bytes()) + live_bytes(
                old(self).bytes(),
                slot_count(old(self).bytes()),
            ),
            forall|i: int|
                0 <= i < slot_count(old(self).bytes()) ==> #[trigger] slot_len(final(self).bytes(), i)
                    == slot_len(old(self).bytes(), i),
            packing_keeps_records(old(self).bytes()) ==> records(final(self).bytes()) == records(old(self).bytes()),
    {
        let ghost b0 = self.bytes();
        let ghost n = slot_count(b0);
        let count = self.get_slot_count();
        let mut destination = HEADER_SIZE + SLOT_SIZE * count as usize;
        let mut i: u16 = 0;
        proof {
            lemma_live_bytes_monotone(b0, 0, n);
        }
        while i < count
            invariant
                n == slot_count(b0),
                count == n,
                page_wf(b0),
                compact_fits(b0),
                0 <= i <= n,
                self.bytes().len() == PAGE_SIZE,
                slot_count(self.bytes()) == n,
                destination == dir_end(b0) + live_bytes(b0, i as int),
                compacted_from(self.bytes(), n, i as int, destination as int) == compacted_bytes(b0),
                forall|j: int| i <= j < n ==> slot_offset(self.bytes(), j) == slot_offset(b0, j),
                forall|j: int| 0 <= j < n ==> slot_len(self.bytes(), j) == slot_len(b0, j),
                forall|j: int| 0 <= j < i ==> slot_offset(self.bytes(), j) + slot_len(self.bytes(), j)
                    <= PAGE_SIZE,
            decreases n - i,
        {
            let ghost cur = self.bytes();
            proof {
                lemma_live_bytes_monotone(b0, i as int + 1, n);
                assert(slot_readable(b0, i as int));
            }
            let (offset, length) = self.read_slot(i);
            proof {
                lemma_live_bytes_nonneg(b0, i as int);
            }
            if length == 0 {
                i = i + 1;
                continue;
            }
            let mut source: Vec<u8> = Vec::new();
            let mut k: usize = 0;
            while k < length as usize
                invariant
                    offset + length <= PAGE_SIZE,
                    k <= length,
                    self.bytes() == cur,
                    source@ == cur.subrange(offset as int, offset + k),
                decreases length - k,
            {
                source.push(self.data[offset as usize + k]);
                k = k + 1;
                assert(source@ =~= cur.subrange(offset as int, offset + k));
            }
            write_bytes(&mut self.data, destination, source.as_slice());
            self.write_slot(i, destination as u16, length);
            proof {
                lemma_compact_step(cur, n, i as int, destination as int);
            }
            destination = destination + length as usize;
            i = i + 1;
        }
        let ghost before = self.bytes();
        write_u16(&mut self.data, 2, destination as u16);
        proof {
            lemma_live_bytes_nonneg(b0, n);
            assert forall|j: int| 0 <= j < n implies slot_offset(self.bytes(), j) == slot_offset(before, j)
                && slot_len(self.bytes(), j) == slot_len(before, j) by {
                assert(slot_pos(j) >= 4);
            }
            assert(slot_count(self.bytes()) == n);
            assert forall|j: int| 0 <= j < slot_count(self.bytes()) implies #[trigger] slot_readable(self.bytes(), j) by {
                assert(slot_pos(j) + 4 <= dir_end(b0));
                assert(slot_offset(before, j) + slot_len(before, j) <= PAGE_SIZE);
            }
            if packing_keeps_records(b0) {
                lemma_compact_keeps_records(b0);
            }
        }
    }

    fn write_slot(&mut self, slot: SlotId, offset: u16, length: u16)
        requires
            slot_pos(slot as int) + SLOT_SIZE <= PAGE_SIZE,
        ensures
            final(self).bytes() == with_u16(
                with_u16(old(self).bytes(), slot_pos(slot as int), offset as int),
                slot_pos(slot as int) + 2,
                length as int,
            ),
    {
        let slot_offset = HEADER_SIZE + slot as usize * SLOT_SIZE;
        write_u16(&mut self.data, slot_offset, offset);
        write_u16(&mut self.data, slot_offset + 2, length);
    }
}


impl Default for SlottedPage {
    fn default() -> (page: Self)
        ensures
            page.bytes() == empty_page_bytes(),
            page.wf(),
    {
        Self::new()
    }
}

proof fn lemma_live_bytes_monotone(b: Seq<u8>, i: int, j: int)
    requires
        0 <= i <= j,
    ensures
        live_bytes(b, i) <= live_bytes(b, j),
        live_bytes(b, i) >= 0,
    decreases j - i,
{
    if i < j {
        lemma_live_bytes_monotone(b, i, j - 1);
        assert(slot_len(b, j - 1) >= 0);
    } else if i > 0 {
        lemma_live_bytes_nonneg(b, i);
    }
}

proof fn lemma_live_bytes_nonneg(b: Seq<u8>, i: int)
    ensures
        live_bytes(b, i) >= 0,
    decreases i,
{
    if i > 0 {
        lemma_live_bytes_nonneg(b, i - 1);
    }
}

/// What one insertion does to a well-formed page with room: the page stays
/// well formed, the new last slot designates exactly the record, the
/// earlier slots are untouched, and on a tidy page the records are the old
/// ones followed by the new one.
pub proof fn lemma_insert(b: Seq<u8>, r: Seq<u8>)
    requires
        page_wf(b),
        r.len() + SLOT_SIZE <= free_space(b),
    ensures
        ({
            let nb = inserted_bytes(b, r);
            let sc = slot_count(b);
            let off = free_end(b) - r.len();
            &&& page_wf(nb)
            &&& slot_count(nb) == sc + 1
            &&& free_end(nb) == off
            &&& slot_offset(nb, sc) == off
            &&& slot_len(nb, sc) == r.len()
            &&& slot_record(nb, sc) == r
            &&& forall|i: int| 0 <= i < sc ==> slot_offset(nb, i) == slot_offset(b, i)
            &&& forall|i: int| 0 <= i < sc ==> slot_len(nb, i) == slot_len(b, i)
            &&& forall|k: int| free_end(b) <= k < PAGE_SIZE ==> nb[k] == b[k]
            &&& page_tidy(b) ==> page_tidy(nb) && records(nb) == records(b).push(r)
        }),
{
    let sc = slot_count(b);
    let fe = free_end(b);
    let off = fe - r.len();
    let de = dir_end(b);
    let b1 = with_bytes(b, off, r);
    let b2 = with_u16(b1, 2, off);
    let b3 = with_u16(b2, 0, sc + 1);
    let b4 = with_u16(b3, slot_pos(sc), off);
    let nb = with_u16(b4, slot_pos(sc) + 2, r.len() as int);
    assert(nb == inserted_bytes(b, r));
    assert(de + 4 <= off);
    assert forall|k: int| 4 <= k < de implies nb[k] == b[k] by {}
    assert forall|k: int| fe <= k < PAGE_SIZE implies nb[k] == b[k] by {}
    assert forall|k: int| off <= k < fe implies nb[k] == r[k - off] by {}
    assert(slot_count(nb) == sc + 1);
    assert(free_end(nb) == off);
    assert forall|i: int| 0 <= i < sc implies slot_offset(nb, i) == slot_offset(b, i)
        && slot_len(nb, i) == slot_len(b, i) by {
        assert(slot_pos(i) + 3 < de);
    }
    assert(slot_offset(nb, sc) == off);
    assert(slot_len(nb, sc) == r.len());
    assert(slot_record(nb, sc) =~= r);
    assert forall|i: int| 0 <= i < slot_count(nb) implies #[trigger] slot_readable(nb, i) by {
        if i < sc {
            assert(slot_readable(b, i));
        }
    }
    if page_tidy(b) {
        assert forall|i: int| 0 <= i < sc implies #[trigger] slot_record(nb, i) == slot_record(b, i) by {
            assert(slot_readable(b, i));
            if slot_len(b, i) > 0 {
                assert(fe <= slot_offset(b, i));
                assert(slot_record(nb, i) =~= slot_record(b, i));
            } else {
                assert(slot_record(nb, i) =~= slot_record(b, i));
            }
        }
        assert(records(nb) =~= records(b).push(r));
        assert forall|i: int|
            0 <= i < slot_count(nb) && slot_len(nb, i) > 0 implies free_end(nb)
            <= #[trigger] slot_offset(nb, i) by {}
        assert forall|i: int, j: int|
            0 <= i < slot_count(nb) && 0 <= j < slot_count(nb) && i != j && slot_len(nb, i) > 0
                && slot_len(nb, j) > 0 implies #[trigger] records_disjoint(nb, i, j) by {
            if i < sc && j < sc {
                assert(records_disjoint(b, i, j));
            }
        }
    }
}

/// The facts that one deletion establishes, for any well-formed page.
proof fn lemma_delete(b: Seq<u8>, s: int)
    requires
        page_wf(b),
        0 <= s < slot_count(b),
    ensures
        ({
            let nb = deleted_bytes(b, s);
            &&& page_wf(nb)
            &&& slot_count(nb) == slot_count(b)
            &&& free_end(nb) == free_end(b)
            &&& slot_offset(nb, s) == 0
            &&& slot_len(nb, s) == 0
            &&& slot_record(nb, s) == Seq::<u8>::empty()
            &&& forall|i: int| 0 <= i < slot_count(b) && i != s ==> slot_offset(nb, i) == slot_offset(b, i)
            &&& forall|i: int| 0 <= i < slot_count(b) && i != s ==> slot_len(nb, i) == slot_len(b, i)
            &&& page_tidy(b) ==> page_tidy(nb) && records(nb) == records(b).update(s, Seq::<u8>::empty())
        }),
{
    let nb = deleted_bytes(b, s);
    let de = dir_end(b);
    assert forall|k: int| de <= k < PAGE_SIZE implies nb[k] == b[k] by {}
    assert forall|i: int| 0 <= i < slot_count(b) && i != s implies slot_offset(nb, i) == slot_offset(b, i)
        && slot_len(nb, i) == slot_len(b, i) by {}
    assert(slot_record(nb, s) =~= Seq::<u8>::empty());
    assert forall|i: int| 0 <= i < slot_count(nb) implies #[trigger] slot_readable(nb, i) by {
        if i != s {
            assert(slot_readable(b, i));
        }
    }
    if page_tidy(b) {
        assert forall|i: int| 0 <= i < slot_count(b) && i != s implies #[trigger] slot_record(nb, i) == slot_record(b, i) by {
            assert(slot_readable(b, i));
            assert(slot_record(nb, i) =~= slot_record(b, i));
        }
        assert(records(nb) =~= records(b).update(s, Seq::<u8>::empty()));
        assert forall|i: int, j: int|
            0 <= i < slot_count(nb) && 0 <= j < slot_count(nb) && i != j && slot_len(nb, i) > 0
                && slot_len(nb, j) > 0 implies #[trigger] records_disjoint(nb, i, j) by {
            assert(records_disjoint(b, i, j));
        }
    }
}


/// The bytes of one packing step: the record copied to `dest`, then the
/// directory entry of slot `i` rewritten. Bytes outside both are kept.
proof fn lemma_pack_step_bytes(cur: Seq<u8>, i: int, dest: int, r: Seq<u8>, len: int, k: int)
    requires
        cur.len() == PAGE_SIZE,
        0 <= dest,
        dest + r.len() <= PAGE_SIZE,
        i >= 0,
        slot_pos(i) + 3 < PAGE_SIZE,
        0 <= k < PAGE_SIZE,
        k < slot_pos(i) || k > slot_pos(i) + 3,
    ensures
        ({
            let next = with_u16(with_u16(with_bytes(cur, dest, r), slot_pos(i), dest), slot_pos(i) + 2, len);
            &&& next.len() == PAGE_SIZE
            &&& (k < dest || k >= dest + r.len()) ==> next[k] == cur[k]
            &&& (dest <= k < dest + r.len()) ==> next[k] == r[k - dest]
        }),
{
}

/// Compaction from slot `i` on, with every slot's record already right
/// and the records before `i` packed below `dest`, keeps every record.
proof fn lemma_compacted_from_records(b0: Seq<u8>, cur: Seq<u8>, i: int, dest: int)
    requires
        page_wf(b0),
        compact_fits(b0),
        packing_keeps_records(b0),
        cur.len() == PAGE_SIZE,
        slot_count(cur) == slot_count(b0),
        0 <= i <= slot_count(b0),
        dest == dir_end(b0) + live_bytes(b0, i),
        forall|j: int| 0 <= j < slot_count(b0) ==> #[trigger] slot_len(cur, j) == slot_len(b0, j),
        forall|j: int| 0 <= j < slot_count(b0) ==> #[trigger] slot_record(cur, j) == slot_record(b0, j),
        forall|j: int|
            0 <= j < slot_count(b0) && (j >= i || slot_len(b0, j) == 0) ==> #[trigger] slot_offset(cur, j)
                == slot_offset(b0, j),
        forall|j: int|
            0 <= j < i && slot_len(b0, j) > 0 ==> dir_end(b0) <= #[trigger] slot_offset(cur, j) && slot_offset(cur, j)
                + slot_len(b0, j) <= dest,
    ensures
        records(compacted_from(cur, slot_count(b0), i, dest)) == records(b0),
        slot_count(compacted_from(cur, slot_count(b0), i, dest)) == slot_count(b0),
    decreases slot_count(b0) - i,
{
    let n = slot_count(b0);
    lemma_live_bytes_monotone(b0, i, n);
    lemma_live_bytes_nonneg(b0, i);
    if i >= n {
        let fin = with_u16(cur, 2, dest);
        assert(fin == compacted_from(cur, n, i, dest));
        assert(slot_count(fin) == n);
        assert forall|j: int| 0 <= j < n implies #[trigger] slot_record(fin, j) == slot_record(b0, j) by {
            assert(slot_readable(b0, j));
            assert(slot_offset(fin, j) == slot_offset(cur, j));
            assert(slot_len(fin, j) == slot_len(cur, j));
            if slot_len(b0, j) > 0 {
                assert(slot_record(fin, j) =~= slot_record(cur, j));
            } else {
                assert(slot_record(fin, j) =~= slot_record(cur, j));
            }
        }
        assert(records(fin) =~= records(b0));
    } else if slot_len(cur, i) == 0 {
        lemma_compacted_from_records(b0, cur, i + 1, dest);
    } else {
        let len = slot_len(cur, i);
        let r = slot_record(cur, i);
        assert(slot_readable(b0, i));
        lemma_live_bytes_monotone(b0, i + 1, n);
        lemma_compact_step(cur, n, i, dest);
        let next = with_u16(with_u16(with_bytes(cur, dest, r), slot_pos(i), dest), slot_pos(i) + 2, len);
        assert(slot_pos(i) + 4 <= dir_end(b0));
        assert forall|j: int| 0 <= j < n implies #[trigger] slot_record(next, j) == slot_record(b0, j) by {
            assert(slot_readable(b0, j));
            if j == i {
                assert forall|k: int| dest <= k < dest + len implies next[k] == r[k - dest] by {
                    lemma_pack_step_bytes(cur, i, dest, r, len, k);
                }
                assert(slot_record(next, j) =~= r);
            } else if slot_len(b0, j) > 0 {
                let o = slot_offset(cur, j);
                if j > i {
                    assert(packed_apart(b0, i, j));
                }
                assert forall|k: int| o <= k < o + slot_len(b0, j) implies next[k] == cur[k] by {
                    lemma_pack_step_bytes(cur, i, dest, r, len, k);
                }
                assert(slot_record(next, j) =~= slot_record(cur, j));
            } else {
                assert(slot_record(next, j) =~= slot_record(cur, j));
            }
        }
        lemma_compacted_from_records(b0, next, i + 1, dest + len);
    }
}

/// Compaction keeps every slot's record when packing overwrites none still
/// to be packed.
pub proof fn lemma_compact_keeps_records(b: Seq<u8>)
    requires
        page_wf(b),
        compact_fits(b),
        packing_keeps_records(b),
    ensures
        records(compacted_bytes(b)) == records(b),
{
    lemma_compacted_from_records(b, b, 0, dir_end(b));
}

/// On a tidy page whose free space can hold all of its records, packing
/// overwrites no record still to be packed.
pub proof fn lemma_roomy_tidy_page_packs(b: Seq<u8>)
    requires
        page_tidy(b),
        dir_end(b) + live_bytes(b, slot_count(b)) <= free_end(b),
    ensures
        packing_keeps_records(b),
        compact_fits(b),
{
    let n = slot_count(b);
    assert forall|k: int, j: int|
        0 <= k < j < n && slot_len(b, k) > 0 && slot_len(b, j) > 0 implies #[trigger] packed_apart(b, k, j) by {
        lemma_live_bytes_monotone(b, k + 1, n);
        assert(free_end(b) <= slot_offset(b, j));
    }
}

/// A call on a page: `insert` of the record `.1` when `.0` holds, else
/// `delete` of slot `.2`. It succeeds when the record and its slot entry
/// fit in the free space, or when the slot is in the directory.
pub open spec fn page_call_succeeds(b: Seq<u8>, call: (bool, Seq<u8>, SlotId)) -> bool {
    if call.0 {
        call.1.len() + SLOT_SIZE <= free_space(b)
    } else {
        call.2 < slot_count(b)
    }
}

/// The bytes after one call: as `insert` or `delete` leave them, and
/// unchanged when the call fails.
pub open spec fn page_after_call(b: Seq<u8>, call: (bool, Seq<u8>, SlotId)) -> Seq<u8> {
    if !page_call_succeeds(b, call) {
        b
    } else if call.0 {
        inserted_bytes(b, call.1)
    } else {
        deleted_bytes(b, call.2 as int)
    }
}

/// The bytes after a sequence of calls, in order.
pub open spec fn page_after_calls(b: Seq<u8>, calls: Seq<(bool, Seq<u8>, SlotId)>) -> Seq<u8>
    decreases calls.len(),
{
    if calls.len() == 0 {
        b
    } else {
        page_after_call(page_after_calls(b, calls.drop_last()), calls.last())
    }
}

/// What each slot should hold after the calls: an insert that succeeds
/// adds its record as the next slot (the slot it returns), a delete that
/// succeeds empties its slot, a call that fails changes nothing.
pub open spec fn slots_after_calls(b: Seq<u8>, calls: Seq<(bool, Seq<u8>, SlotId)>) -> Seq<Seq<u8>>
    decreases calls.len(),
{
    if calls.len() == 0 {
        records(b)
    } else {
        let prev = page_after_calls(b, calls.drop_last());
        let rs = slots_after_calls(b, calls.drop_last());
        let c = calls.last();
        if !page_call_succeeds(prev, c) {
            rs
        } else if c.0 {
            rs.push(c.1)
        } else {
            rs.update(c.2 as int, Seq::<u8>::empty())
        }
    }
}

/// Reading a slot gives back what was written to it: after any inserts
/// and deletes on a fresh page (or any tidy page), each slot holds the
/// record of the insert that returned it, or nothing once it is deleted,
/// and the page stays tidy.
pub proof fn lemma_get_gives_last_write(b: Seq<u8>, calls: Seq<(bool, Seq<u8>, SlotId)>)
    requires
        page_tidy(b),
    ensures
        page_tidy(page_after_calls(b, calls)),
        records(page_after_calls(b, calls)) == slots_after_calls(b, calls),
        forall|s: int| 0 <= s < slot_count(page_after_calls(b, calls)) ==>
            #[trigger] slot_record(page_after_calls(b, calls), s) == slots_after_calls(b, calls)[s],
    decreases calls.len(),
{
    if calls.len() > 0 {
        lemma_get_gives_last_write(b, calls.drop_last());
        let prev = page_after_calls(b, calls.drop_last());
        let c = calls.last();
        if page_call_succeeds(prev, c) {
            if c.0 {
                lemma_insert(prev, c.1);
            } else {
                lemma_delete(prev, c.2 as int);
            }
        }
    }
    let fin = page_after_calls(b, calls);
    assert forall|s: int| 0 <= s < slot_count(fin) implies #[trigger] slot_record(fin, s) == slots_after_calls(b, calls)[s] by {
        assert(records(fin)[s] == slot_record(fin, s));
    }
}

proof fn lemma_compact_step(cur: Seq<u8>, n: int, i: int, dest: int)
    requires
        cur.len() == PAGE_SIZE,
        slot_count(cur) == n,
        4 + 4 * n <= dest,
        0 <= i < n,
        slot_len(cur, i) > 0,
        dest + slot_len(cur, i) <= PAGE_SIZE,
        slot_offset(cur, i) + slot_len(cur, i) <= PAGE_SIZE,
    ensures
        ({
            let len = slot_len(cur, i);
            let next = with_u16(
                with_u16(with_bytes(cur, dest, slot_record(cur, i)), slot_pos(i), dest),
                slot_pos(i) + 2,
                len,
            );
            &&& next.len() == PAGE_SIZE
            &&& slot_count(next) == n
            &&& slot_offset(next, i) == dest
            &&& slot_len(next, i) == len
            &&& forall|j: int| 0 <= j < n && j != i ==> slot_offset(next, j) == slot_offset(cur, j)
            &&& forall|j: int| 0 <= j < n && j != i ==> slot_len(next, j) == slot_len(cur, j)
            &&& compacted_from(cur, n, i, dest) == compacted_from(next, n, i + 1, dest + len)
        }),
{
    let len = slot_len(cur, i);
    let moved = with_bytes(cur, dest, slot_record(cur, i));
    let next = with_u16(with_u16(moved, slot_pos(i), dest), slot_pos(i) + 2, len);
    assert forall|k: int| 0 <= k < dest implies moved[k] == cur[k] by {}
    assert forall|j: int| 0 <= j < n && j != i implies slot_offset(next, j) == slot_offset(cur, j)
        && slot_len(next, j) == slot_len(cur, j) by {
        assert(slot_pos(j) + 3 < dest);
    }
    assert(slot_count(next) == n);
}
} // verus!
