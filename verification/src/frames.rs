//! What a frame builds on: the frame before it, seen from the same camera or from
//! another.

use vstd::prelude::*;

use crate::gpu::{accum_buffer, history_buffer, Accumulation};
use crate::shader::{HISTORY_MOVED, HISTORY_NONE, HISTORY_STILL};

verus! {

/// A camera, by the bits of its position and directions.
#[derive(Clone, Copy, Debug, PartialEq, Eq)]
pub struct CameraPose {
    pub pos: [u32; 3],
    pub dir: [u32; 3],
    pub vup: [u32; 3],
}

/// What the history buffer holds for a frame, and the camera it was rendered from.
pub open spec fn history_for(
    prev_camera: Option<CameraPose>,
    camera: CameraPose,
    still: bool,
) -> (u32, CameraPose) {
    match prev_camera {
        None => (HISTORY_NONE, camera),
        Some(prev) => (
            if still {
                HISTORY_STILL
            } else {
                HISTORY_MOVED
            },
            prev,
        ),
    }
}

/// What the next frame can build on.
pub struct FrameHistory {
    /// The shader writes one accumulation entry per pixel, so the buffers have
    /// to match the size being drawn. Rebuilt whenever that size changes.
    pub accumulation: Accumulation,
    /// The camera of the previous frame, which the history buffer holds the view
    /// from. `None` where there is no such frame.
    pub prev_camera: Option<CameraPose>,
}

impl FrameHistory {
    /// The bind group is one of two.
    pub open spec fn wf(self) -> bool {
        self.accumulation.wf()
    }

    /// Whether the buffers fit a size and there is no history.
    pub open spec fn is_fresh(self, size: (u32, u32)) -> bool {
        &&& self.accumulation.size == size
        &&& self.accumulation.group() == 0
        &&& self.prev_camera is None
    }

    /// No history, for an image of some size.
    pub fn new(width: u32, height: u32) -> (history: Self)
        ensures
            history.wf(),
            history.is_fresh((width, height)),
            history.accumulation.size == (width, height),
            history.accumulation.writing == 0,
            history.prev_camera is None,
    {
        Self { accumulation: Accumulation::new(width, height), prev_camera: None }
    }

    /// Match the buffers to the size being drawn. The result says whether they
    /// have to be rebuilt, which loses their history.
    pub fn resize(&mut self, width: u32, height: u32) -> (rebuild: bool)
        requires
            old(self).wf(),
        ensures
            final(self).wf(),
            rebuild == (old(self).accumulation.size != (width, height)),
            if rebuild {
                final(self).is_fresh((width, height))
            } else {
                *final(self) == *old(self)
            },
            final(self).accumulation.size == (width, height),
            rebuild ==> final(self).accumulation.writing == 0 && final(self).prev_camera is None,
    {
        if self.accumulation.size.0 != width || self.accumulation.size.1 != height {
            self.accumulation = Accumulation::new(width, height);
            self.prev_camera = None;
            return true;
        }
        false
    }

    /// What the history buffer holds for the next frame, and the camera it was
    /// rendered from. `still` says whether the camera equals the previous
    /// frame's, if there was one.
    pub fn begin_frame(&mut self, camera: CameraPose, still: bool) -> (mode: (u32, CameraPose))
        ensures
            final(self).accumulation == old(self).accumulation,
            final(self).prev_camera == Some(camera),
            mode == history_for(old(self).prev_camera, camera, still),
            old(self).prev_camera is None ==> mode == (HISTORY_NONE, camera),
            old(self).prev_camera matches Some(prev) ==> {
                &&& mode.1 == prev
                &&& mode.0 == HISTORY_STILL <==> still
                &&& mode.0 == HISTORY_MOVED <==> !still
            },
    {
        let mode: (u32, CameraPose) = match self.prev_camera {
            None => (HISTORY_NONE, camera),
            Some(prev) => if still {
                (HISTORY_STILL, prev)
            } else {
                (HISTORY_MOVED, prev)
            },
        };
        self.prev_camera = Some(camera);
        mode
    }

    /// The frame has been recorded; the next one reads what it wrote.
    pub fn end_frame(&mut self)
        requires
            old(self).wf(),
        ensures
            final(self).wf(),
            final(self).accumulation.size == old(self).accumulation.size,
            final(self).accumulation.group() == 1 - old(self).accumulation.group(),
            final(self).prev_camera == old(self).prev_camera,
    {
        self.accumulation.swap();
    }

    /// The next frame has nothing to do with the last one.
    pub fn forget(&mut self)
        ensures
            final(self).accumulation == old(self).accumulation,
            final(self).prev_camera is None,
    {
        self.prev_camera = None;
    }
}

/// What to draw in a frame.
#[derive(Clone, Copy, Debug, PartialEq, Eq)]
pub struct FramePlan {
    /// The number of the frame, which seeds its random sequence.
    pub frame: u32,
    /// What the history buffer holds.
    pub history: u32,
    /// The camera the history buffer was rendered from.
    pub prev: CameraPose,
    /// Paths traced per pixel.
    pub samples: u32,
}

/// The frames of live mode, which are numbered without end.
pub struct LiveFrames {
    /// What the next frame can build on.
    pub history: FrameHistory,
    /// The number of the next frame. Counts up every frame and never resets, not
    /// even when the size changes. It varies the random sequence from frame to
    /// frame, which is what makes summing frames converge rather than repeat.
    pub count: u32,
}

impl LiveFrames {
    /// No frame yet, for an image of some size.
    pub fn new(width: u32, height: u32) -> (frames: Self)
        ensures
            frames.history.wf(),
            frames.history.is_fresh((width, height)),
            frames.count == 0,
    {
        Self { history: FrameHistory::new(width, height), count: 0 }
    }

    /// What to draw in the next frame, with some number of paths per pixel. `still`
    /// says whether the camera equals the previous frame's, if there was one.
    pub fn begin_frame(&mut self, camera: CameraPose, still: bool, samples: u32) -> (plan: FramePlan)
        ensures
            final(self).history.accumulation == old(self).history.accumulation,
            final(self).history.prev_camera == Some(camera),
            final(self).count == old(self).count,
            plan.frame == old(self).count,
            plan.samples == samples,
            (plan.history, plan.prev) == history_for(old(self).history.prev_camera, camera, still),
            old(self).history.prev_camera is None ==> plan.history == HISTORY_NONE && plan.prev
                == camera,
            old(self).history.prev_camera matches Some(prev) ==> {
                &&& plan.prev == prev
                &&& plan.history == HISTORY_STILL <==> still
                &&& plan.history == HISTORY_MOVED <==> !still
            },
    {
        let (history, prev): (u32, CameraPose) = self.history.begin_frame(camera, still);
        FramePlan { frame: self.count, history, prev, samples }
    }

    /// The frame has been recorded; the next one reads what it wrote. Past the last
    /// number, counting begins again.
    pub fn end_frame(&mut self)
        requires
            old(self).history.wf(),
        ensures
            final(self).history.wf(),
            final(self).history.accumulation.size == old(self).history.accumulation.size,
            final(self).history.accumulation.group() == 1
                - old(self).history.accumulation.group(),
            final(self).history.prev_camera == old(self).history.prev_camera,
            final(self).count == (old(self).count + 1) % 0x1_0000_0000,
    {
        self.history.end_frame();
        self.count = self.count.wrapping_add(1);
    }
}

/// A frame that follows another at the same size reads what that one wrote, and
/// takes it for the view of the camera that drew it.
pub proof fn law_frame_builds_on_last(
    before: FrameHistory,
    after: FrameHistory,
    camera: CameraPose,
    next: CameraPose,
    still: bool,
)
    requires
        before.wf(),
        after.accumulation.group() == 1 - before.accumulation.group(),
        after.prev_camera == Some(camera),
    ensures
        history_buffer(after.accumulation.group()) == accum_buffer(before.accumulation.group()),
        history_for(after.prev_camera, next, still).0 != HISTORY_NONE,
        history_for(after.prev_camera, next, still).1 == camera,
        history_for(after.prev_camera, next, still).0 == HISTORY_STILL <==> still,
        history_for(after.prev_camera, next, still).0 == HISTORY_MOVED <==> !still,
{
}

/// What a frame takes the history buffer for, over every pair of cameras: nothing
/// where there was no frame before it, the same view just if the cameras are equal,
/// and another view just if they are not. The three cannot be mistaken for each
/// other.
pub proof fn law_history_mode(prev: CameraPose, camera: CameraPose, still: bool)
    ensures
        history_for(None, camera, still).0 == 0,
        history_for(None, camera, still).1 == camera,
        history_for(Some(prev), camera, still).0 == 1 <==> still,
        history_for(Some(prev), camera, still).0 == 2 <==> !still,
        history_for(Some(prev), camera, still).1 == prev,
        HISTORY_NONE == 0,
        HISTORY_STILL == 1,
        HISTORY_MOVED == 2,
{
}

} // verus!
