//! The screen grabber's retry policy: what to do after each attempt to take
//! a frame.

use vstd::prelude::*;

verus! {

/// Pause between attempts while no new frame is ready: a sixtieth of a
/// second, in nanoseconds.
pub const FRAME_PAUSE_NANOS: u64 = 16_666_666;

/// Pause before the grabber is made anew after a failure, in nanoseconds.
pub const RELOAD_PAUSE_NANOS: u64 = 200_000_000;

/// How an attempt to take a frame went.
#[derive(PartialEq, Eq, Structural, Debug, Clone, Copy)]
pub enum FrameOutcome {
    /// A frame was taken.
    Ready,
    /// No new frame yet.
    WouldBlock,
    /// The grabber reported another error.
    Failed,
    /// There is no grabber (making it failed before).
    NoGrabber,
}

/// What to do after an attempt.
#[derive(PartialEq, Eq, Structural, Debug, Clone, Copy)]
pub struct CaptureStep {
    /// Nanoseconds to wait before going on.
    pub pause_nanos: u64,
    /// Whether to make the grabber anew after the pause.
    pub reload: bool,
    /// Whether the frame was taken, ending the capture.
    pub done: bool,
}

/// The step after an attempt that went as `outcome`: a taken frame ends the
/// capture; no new frame waits a frame interval and tries again; an error
/// waits a frame interval and the reload pause, then makes the grabber anew;
/// no grabber waits the reload pause, then makes it anew.
pub fn capture_step(outcome: FrameOutcome) -> (s: CaptureStep)
    ensures
        s.done == (outcome == FrameOutcome::Ready),
        s.reload == (outcome == FrameOutcome::Failed || outcome == FrameOutcome::NoGrabber),
        s.pause_nanos == match outcome {
            FrameOutcome::Ready => 0int,
            FrameOutcome::WouldBlock => FRAME_PAUSE_NANOS as int,
            FrameOutcome::Failed => FRAME_PAUSE_NANOS + RELOAD_PAUSE_NANOS,
            FrameOutcome::NoGrabber => RELOAD_PAUSE_NANOS as int,
        },
{
    match outcome {
        FrameOutcome::Ready => CaptureStep { pause_nanos: 0, reload: false, done: true },
        FrameOutcome::WouldBlock => CaptureStep { pause_nanos: FRAME_PAUSE_NANOS, reload: false, done: false },
        FrameOutcome::Failed => CaptureStep {
            pause_nanos: FRAME_PAUSE_NANOS + RELOAD_PAUSE_NANOS,
            reload: true,
            done: false,
        },
        FrameOutcome::NoGrabber => CaptureStep { pause_nanos: RELOAD_PAUSE_NANOS, reload: true, done: false },
    }
}

} // verus!
