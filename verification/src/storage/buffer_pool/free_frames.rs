//! The queue of frames that hold no page, handed out oldest first.
use vstd::prelude::*;

use std::collections::VecDeque;

use crate::storage::buffer_pool::clock_replacer::FrameId;

verus! {

broadcast use vstd::std_specs::vecdeque::group_vec_dequeue_axioms;

#[derive(Debug, PartialEq, Eq, Structural)]
pub enum FreeFramesError {
    LockPoisoned,
}

pub struct FreeFrames {
    frames: VecDeque<FrameId>,
}

impl FreeFrames {
    /// The free frames, in the order they will be handed out.
    pub closed spec fn queue(&self) -> Seq<FrameId> {
        self.frames@
    }

    pub fn new() -> (f: Self)
        ensures
            f.queue() == Seq::<FrameId>::empty(),
    {
        Self { frames: VecDeque::new() }
    }

    /// A queue of the frames `0 .. size`, in increasing order.
    pub fn initialize(size: usize) -> (result: Result<Self, FreeFramesError>)
        ensures
            result matches Ok(f) && f.queue() == Seq::new(size as nat, |i: int| i as FrameId),
    {
        let mut init = Self::new();
        let mut i: usize = 0;
        while i < size
            invariant
                i <= size,
                init.queue() == Seq::new(i as nat, |j: int| j as FrameId),
            decreases size - i,
        {
            init.frames.push_back(i);
            i = i + 1;
            assert(init.queue() =~= Seq::new(i as nat, |j: int| j as FrameId));
        }
        Ok(init)
    }

    /// Puts `frame_id` at the back of the queue.
    pub fn add_frame(&mut self, frame_id: FrameId) -> (result: Result<(), FreeFramesError>)
        ensures
            result is Ok,
            final(self).queue() == old(self).queue().push(frame_id),
            final(self).queue().len() <= usize::MAX,
    {
        self.frames.push_back(frame_id);
        proof {
            let _ = vstd::std_specs::vecdeque::spec_vec_dequeue_len(&self.frames);
        }
        Ok(())
    }

    /// Takes the frame at the front of the queue, if any.
    pub fn get_frame(&mut self) -> (result: Result<Option<FrameId>, FreeFramesError>)
        ensures
            old(self).queue().len() == 0 ==> result == Ok::<Option<FrameId>, FreeFramesError>(None)
                && final(self).queue() == old(self).queue(),
            old(self).queue().len() > 0 ==> result == Ok::<Option<FrameId>, FreeFramesError>(
                Some(old(self).queue()[0]),
            ) && final(self).queue() == old(self).queue().drop_first(),
            old(self).queue().len() <= usize::MAX,
            final(self).queue().len() <= usize::MAX,
    {
        proof {
            let _ = vstd::std_specs::vecdeque::spec_vec_dequeue_len(&self.frames);
        }
        let frame = self.frames.pop_front();
        proof {
            let _ = vstd::std_specs::vecdeque::spec_vec_dequeue_len(&self.frames);
        }
        Ok(frame)
    }

    /// The number of queued frames.
    pub fn len(&self) -> (result: Result<usize, FreeFramesError>)
        ensures
            result matches Ok(n) && n == self.queue().len(),
    {
        Ok(self.frames.len())
    }

    pub fn is_empty(&self) -> (result: Result<bool, FreeFramesError>)
        ensures
            result == Ok::<bool, FreeFramesError>(self.queue().len() == 0),
    {
        Ok(self.frames.len() == 0)
    }
}

impl Default for FreeFrames {
    fn default() -> (f: Self)
        ensures
            f.queue() == Seq::<FrameId>::empty(),
    {
        Self::new()
    }
}

} // verus!
