//! One buffer-pool frame: a page-sized buffer and the bookkeeping of the
//! page it holds.
use vstd::prelude::*;

use crate::storage::PAGE_SIZE;

verus! {

pub type PageId = u16;

/// Bookkeeping of a page held in a frame.
pub struct PageMeta {
    pub page_id: PageId,
    pin_count: u8,
    pub dirty: bool,
    reference: bool,
}

/// What the bookkeeping of a page records.
pub struct MetaView {
    pub page_id: PageId,
    pub pins: u8,
    pub dirty: bool,
    pub referenced: bool,
}

/// What a frame holds: its bytes, the bookkeeping of its page if it holds
/// one, and its state.
pub struct FrameView {
    pub data: Seq<u8>,
    pub meta: Option<MetaView>,
    pub state: FrameState,
}

impl View for PageMeta {
    type V = MetaView;

    closed spec fn view(&self) -> MetaView {
        MetaView {
            page_id: self.page_id,
            pins: self.pin_count,
            dirty: self.dirty,
            referenced: self.reference,
        }
    }
}

#[derive(Debug, PartialEq, Eq, Structural)]
pub enum FrameState {
    Free,
    Reserved,
    Resident,
}

#[derive(Debug, PartialEq, Eq, Structural)]
pub enum FrameError {
    /// The given data is not exactly one page long.
    InvalidDataLength,
    /// The frame is already reserved.
    AlreadyReserved,
    /// The frame holds no page.
    PageNotFound,
    /// The page is not pinned.
    NotPinned,
}

pub struct Frame {
    pub data: [u8; PAGE_SIZE],
    pub metadata: Option<PageMeta>,
    pub state: FrameState,
}

/// `p + 1`, staying at `u8::MAX`.
pub open spec fn pins_plus_one(p: u8) -> u8 {
    if p == u8::MAX {
        u8::MAX
    } else {
        (p + 1) as u8
    }
}

/// The bookkeeping of a page that was just loaded.
pub open spec fn fresh_meta(page_id: PageId) -> MetaView {
    MetaView { page_id, pins: 0, dirty: false, referenced: false }
}

/// A page-sized run of zero bytes.
pub open spec fn zero_page() -> Seq<u8> {
    Seq::new(PAGE_SIZE as nat, |i: int| 0u8)
}

/// The frame after one `pin`: one more pin on its page, staying at
/// `u8::MAX`; a frame holding no page is left as it is.
pub open spec fn pinned_once(f: FrameView) -> FrameView {
    match f.meta {
        Some(m) => f.with_meta(MetaView { pins: pins_plus_one(m.pins), ..m }),
        None => f,
    }
}

/// The frame after one `unpin`: one pin fewer on its page; a frame whose
/// page is not pinned, or that holds no page, is left as it is (the call
/// is refused).
pub open spec fn unpinned_once(f: FrameView) -> FrameView {
    match f.meta {
        Some(m) => if m.pins == 0 {
            f
        } else {
            f.with_meta(MetaView { pins: (m.pins - 1) as u8, ..m })
        },
        None => f,
    }
}

/// The frame after `k` calls of `pin`.
pub open spec fn pinned_times(f: FrameView, k: nat) -> FrameView
    decreases k,
{
    if k == 0 {
        f
    } else {
        pinned_once(pinned_times(f, (k - 1) as nat))
    }
}

/// The frame after `k` calls of `unpin`.
pub open spec fn unpinned_times(f: FrameView, k: nat) -> FrameView
    decreases k,
{
    if k == 0 {
        f
    } else {
        unpinned_once(unpinned_times(f, (k - 1) as nat))
    }
}

/// The frame with its page's pin count set to `q`; a frame holding no
/// page is left as it is.
pub open spec fn with_pins(f: FrameView, q: u8) -> FrameView {
    match f.meta {
        Some(m) => f.with_meta(MetaView { pins: q, ..m }),
        None => f,
    }
}

proof fn lemma_pinned_times(f: FrameView, k: nat)
    requires
        f.meta matches Some(m) && m.pins as int + k <= 255,
    ensures
        pinned_times(f, k) == with_pins(f, (f.meta->0.pins + k) as u8),
    decreases k,
{
    if k > 0 {
        lemma_pinned_times(f, (k - 1) as nat);
    }
}

proof fn lemma_unpinned_times(f: FrameView, j: nat)
    requires
        f.meta matches Some(m) && j <= m.pins,
    ensures
        unpinned_times(f, j) == with_pins(f, (f.meta->0.pins - j) as u8),
    decreases j,
{
    if j > 0 {
        lemma_unpinned_times(f, (j - 1) as nat);
    }
}

/// On a frame holding an unpinned page, `k` pins (at most 255) are undone
/// by exactly `k` unpins: each of those succeeds and leaves the page
/// pinned until the last, after which the frame is as it was, its page
/// unpinned, and a further unpin is refused and changes nothing.
pub proof fn lemma_k_pins_then_k_unpins(f: FrameView, k: nat)
    requires
        f.meta matches Some(m) && m.pins == 0,
        k <= 255,
    ensures
        pinned_times(f, k).meta->0.pins == k,
        forall|j: nat| j < k ==> (#[trigger] unpinned_times(pinned_times(f, k), j)).is_pinned(),
        unpinned_times(pinned_times(f, k), k) == f,
        !f.is_pinned(),
        unpinned_once(f) == f,
{
    lemma_pinned_times(f, k);
    let g = pinned_times(f, k);
    assert forall|j: nat| j < k implies (#[trigger] unpinned_times(g, j)).is_pinned() by {
        lemma_unpinned_times(g, j);
    }
    lemma_unpinned_times(g, k);
    let m = f.meta->0;
    assert(with_pins(g, 0) == f) by {
        assert(MetaView { pins: 0u8, ..m } == m);
    }
}

impl View for Frame {
    type V = FrameView;

    open spec fn view(&self) -> FrameView {
        FrameView {
            data: self.data@,
            meta: match self.metadata {
                Some(m) => Some(m@),
                None => None,
            },
            state: self.state,
        }
    }
}

impl FrameView {
    /// The same frame in state `s`.
    pub open spec fn with_state(self, s: FrameState) -> FrameView {
        FrameView { state: s, ..self }
    }

    /// The same frame with its page's bookkeeping changed by `f`, when it
    /// holds a page.
    pub open spec fn with_meta(self, m: MetaView) -> FrameView {
        FrameView { meta: Some(m), ..self }
    }

    pub open spec fn is_pinned(self) -> bool {
        self.meta matches Some(m) && m.pins > 0
    }

    pub open spec fn is_dirty(self) -> bool {
        self.meta matches Some(m) && m.dirty
    }

    pub open spec fn is_referenced(self) -> bool {
        self.meta matches Some(m) && m.referenced
    }

    /// The same frame with the reference bit of its page cleared.
    pub open spec fn reference_cleared(self) -> FrameView {
        match self.meta {
            Some(m) => self.with_meta(MetaView { referenced: false, ..m }),
            None => self,
        }
    }
}

impl Frame {
    pub fn new() -> (frame: Self)
        ensures
            frame@ == (FrameView { data: zero_page(), meta: None, state: FrameState::Free }),
    {
        let frame = Self { data: [0u8; PAGE_SIZE], metadata: None, state: FrameState::Free };
        assert(frame.data@ =~= zero_page());
        frame
    }

    /// Copies a page into the frame, with fresh bookkeeping, and makes the
    /// frame resident; refused when `data` is not exactly one page long.
    pub fn load_page(&mut self, page_id: PageId, data: &[u8]) -> (result: Result<(), FrameError>)
        ensures
            result is Ok <==> data@.len() == PAGE_SIZE,
            result is Ok ==> final(self)@ == (FrameView {
                data: data@,
                meta: Some(fresh_meta(page_id)),
                state: FrameState::Resident,
            }),
            result is Err ==> result == Err::<(), FrameError>(FrameError::InvalidDataLength)
                && final(self)@ == old(self)@,
    {
        if data.len() != PAGE_SIZE {
            return Err(FrameError::InvalidDataLength);
        }
        let mut k: usize = 0;
        while k < PAGE_SIZE
            invariant
                data@.len() == PAGE_SIZE,
                k <= PAGE_SIZE,
                forall|i: int| 0 <= i < k ==> self.data@[i] == data@[i],
            decreases PAGE_SIZE - k,
        {
            self.data[k] = data[k];
            k = k + 1;
        }
        assert(self.data@ =~= data@);
        self.metadata = Some(PageMeta { page_id, pin_count: 0, dirty: false, reference: false });
        self.state = FrameState::Resident;
        Ok(())
    }

    pub fn read_data(&self) -> (data: &[u8])
        ensures
            data@ == self@.data,
    {
        self.data.as_slice()
    }

    /// Overwrites the page data and marks the page dirty; refused when
    /// `data` is not exactly one page long. When the frame holds no page
    /// the data is still copied, and the dirty mark is refused.
    pub fn modify_data(&mut self, data: &[u8]) -> (result: Result<(), FrameError>)
        ensures
            data@.len() != PAGE_SIZE ==> result == Err::<(), FrameError>(FrameError::InvalidDataLength)
                && final(self)@ == old(self)@,
            data@.len() == PAGE_SIZE ==> match old(self)@.meta {
                None => result == Err::<(), FrameError>(FrameError::PageNotFound)
                    && final(self)@ == (FrameView { data: data@, ..old(self)@ }),
                Some(m) => result is Ok && final(self)@ == (FrameView {
                    data: data@,
                    meta: Some(MetaView { dirty: true, ..m }),
                    ..old(self)@
                }),
            },
    {
        if data.len() != PAGE_SIZE {
            return Err(FrameError::InvalidDataLength);
        }
        let mut k: usize = 0;
        while k < PAGE_SIZE
            invariant
                data@.len() == PAGE_SIZE,
                k <= PAGE_SIZE,
                forall|i: int| 0 <= i < k ==> self.data@[i] == data@[i],
                self.metadata == old(self).metadata,
                self.state == old(self).state,
            decreases PAGE_SIZE - k,
        {
            self.data[k] = data[k];
            k = k + 1;
        }
        assert(self.data@ =~= data@);
        self.mark_dirty()
    }

    pub fn is_free(&self) -> (b: bool)
        ensures
            b == (self@.state == FrameState::Free),
    {
        self.state == FrameState::Free
    }

    pub fn set_free(&mut self) -> (result: Result<(), FrameError>)
        ensures
            result is Ok,
            final(self)@ == old(self)@.with_state(FrameState::Free),
    {
        self.state = FrameState::Free;
        Ok(())
    }

    pub fn is_resident(&self) -> (b: bool)
        ensures
            b == (self@.state == FrameState::Resident),
    {
        self.state == FrameState::Resident
    }

    pub fn set_resident(&mut self) -> (result: Result<(), FrameError>)
        ensures
            result is Ok,
            final(self)@ == old(self)@.with_state(FrameState::Resident),
    {
        self.state = FrameState::Resident;
        Ok(())
    }

    pub fn is_reserved(&self) -> (b: bool)
        ensures
            b == (self@.state == FrameState::Reserved),
    {
        self.state == FrameState::Reserved
    }

    /// Reserves the frame; refused when it is reserved already.
    pub fn reserve(&mut self) -> (result: Result<(), FrameError>)
        ensures
            result is Ok <==> old(self)@.state != FrameState::Reserved,
            result is Err ==> result == Err::<(), FrameError>(FrameError::AlreadyReserved),
            final(self)@ == old(self)@.with_state(FrameState::Reserved),
    {
        if self.state != FrameState::Reserved {
            self.state = FrameState::Reserved;
            return Ok(());
        }
        Err(FrameError::AlreadyReserved)
    }

    /// Adds a pin, saturating at `u8::MAX`; refused when no page is held.
    pub fn pin(&mut self) -> (result: Result<(), FrameError>)
        ensures
            final(self)@ == pinned_once(old(self)@),
            match old(self)@.meta {
                None => result == Err::<(), FrameError>(FrameError::PageNotFound) && final(self)@ == old(self)@,
                Some(m) => result is Ok && final(self)@ == old(self)@.with_meta(
                    MetaView { pins: pins_plus_one(m.pins), ..m },
                ),
            },
    {
        if let Some(meta) = self.metadata.as_mut() {
            meta.pin_count = meta.pin_count.saturating_add(1);
        } else {
            return Err(FrameError::PageNotFound);
        }
        Ok(())
    }

    /// Removes a pin; refused when no page is held or it is not pinned.
    pub fn unpin(&mut self) -> (result: Result<(), FrameError>)
        ensures
            final(self)@ == unpinned_once(old(self)@),
            result is Ok <==> old(self)@.is_pinned(),
            match old(self)@.meta {
                None => result == Err::<(), FrameError>(FrameError::PageNotFound) && final(self)@ == old(self)@,
                Some(m) => if m.pins == 0 {
                    result == Err::<(), FrameError>(FrameError::NotPinned) && final(self)@ == old(self)@
                } else {
                    result is Ok && final(self)@ == old(self)@.with_meta(
                        MetaView { pins: (m.pins - 1) as u8, ..m },
                    )
                },
            },
    {
        if let Some(meta) = self.metadata.as_mut() {
            if meta.pin_count > 0 {
                meta.pin_count -= 1;
            } else {
                return Err(FrameError::NotPinned);
            }
        } else {
            return Err(FrameError::PageNotFound);
        }
        Ok(())
    }

    pub fn mark_dirty(&mut self) -> (result: Result<(), FrameError>)
        ensures
            match old(self)@.meta {
                None => result == Err::<(), FrameError>(FrameError::PageNotFound) && final(self)@ == old(self)@,
                Some(m) => result is Ok && final(self)@ == old(self)@.with_meta(MetaView { dirty: true, ..m }),
            },
    {
        if let Some(meta) = self.metadata.as_mut() {
            meta.dirty = true;
        } else {
            return Err(FrameError::PageNotFound);
        }
        Ok(())
    }

    pub fn clear_dirty(&mut self) -> (result: Result<(), FrameError>)
        ensures
            match old(self)@.meta {
                None => result == Err::<(), FrameError>(FrameError::PageNotFound) && final(self)@ == old(self)@,
                Some(m) => result is Ok && final(self)@ == old(self)@.with_meta(MetaView { dirty: false, ..m }),
            },
    {
        if let Some(meta) = self.metadata.as_mut() {
            meta.dirty = false;
        } else {
            return Err(FrameError::PageNotFound);
        }
        Ok(())
    }

    pub fn mark_referenced(&mut self) -> (result: Result<(), FrameError>)
        ensures
            match old(self)@.meta {
                None => result == Err::<(), FrameError>(FrameError::PageNotFound) && final(self)@ == old(self)@,
                Some(m) => result is Ok && final(self)@ == old(self)@.with_meta(MetaView { referenced: true, ..m }),
            },
    {
        if let Some(meta) = self.metadata.as_mut() {
            meta.reference = true;
        } else {
            return Err(FrameError::PageNotFound);
        }
        Ok(())
    }

    pub fn mark_unreferenced(&mut self) -> (result: Result<(), FrameError>)
        ensures
            match old(self)@.meta {
                None => result == Err::<(), FrameError>(FrameError::PageNotFound) && final(self)@ == old(self)@,
                Some(m) => result is Ok && final(self)@ == old(self)@.reference_cleared(),
            },
    {
        if let Some(meta) = self.metadata.as_mut() {
            meta.reference = false;
        } else {
            return Err(FrameError::PageNotFound);
        }
        Ok(())
    }

    pub fn get_page_id(&self) -> (result: Result<PageId, FrameError>)
        ensures
            match self@.meta {
                None => result == Err::<PageId, FrameError>(FrameError::PageNotFound),
                Some(m) => result == Ok::<PageId, FrameError>(m.page_id),
            },
    {
        if let Some(meta) = &self.metadata {
            Ok(meta.page_id)
        } else {
            Err(FrameError::PageNotFound)
        }
    }

    pub fn is_dirty(&self) -> (b: bool)
        ensures
            b == self@.is_dirty(),
    {
        if let Some(meta) = &self.metadata {
            if meta.dirty {
                return true;
            }
        }
        false
    }

    pub fn is_referenced(&self) -> (b: bool)
        ensures
            b == self@.is_referenced(),
    {
        if let Some(meta) = &self.metadata {
            if meta.reference {
                return true;
            }
        }
        false
    }

    pub fn is_pinned(&self) -> (b: bool)
        ensures
            b == self@.is_pinned(),
    {
        if let Some(meta) = &self.metadata {
            if meta.pin_count > 0 {
                return true;
            }
        }
        false
    }

    /// Clears the frame: zeroed data, no page, free.
    pub fn reset(&mut self) -> (result: Result<(), FrameError>)
        ensures
            result is Ok,
            final(self)@ == (FrameView { data: zero_page(), meta: None, state: FrameState::Free }),
    {
        self.data = [0u8; PAGE_SIZE];
        self.metadata = None;
        assert(self.data@ =~= zero_page());
        self.set_free()
    }
}

impl Default for Frame {
    fn default() -> (frame: Self)
        ensures
            frame@ == (FrameView { data: zero_page(), meta: None, state: FrameState::Free }),
    {
        Self::new()
    }
}

} // verus!
