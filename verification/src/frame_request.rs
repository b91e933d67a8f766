//! Gathering the redraw requests of input, network and fades into one callback per frame.
use vstd::prelude::*;

verus! {

/// The mark that keeps at most one frame callback reserved: set when one is reserved, cleared
/// when the callback starts running (or the reservation failed).
#[derive(Debug)]
pub struct FrameRequest {
    pending: bool,
}

impl Default for FrameRequest {
    /// No callback reserved, as `new`.
    fn default() -> (r: Self)
        ensures
            !r.is_pending(),
    {
        FrameRequest { pending: false }
    }
}

impl FrameRequest {
    /// Whether a callback is reserved and has not run yet.
    pub closed spec fn is_pending(&self) -> bool {
        self.pending
    }

    /// No callback reserved.
    pub fn new() -> (r: Self)
        ensures
            !r.is_pending(),
    {
        FrameRequest { pending: false }
    }

    /// Returns `true` only when a new callback has to be reserved; afterwards one is reserved.
    pub fn request(&mut self) -> (needed: bool)
        ensures
            needed == !old(self).is_pending(),
            final(self).is_pending(),
    {
        let was = self.pending;
        self.pending = true;
        !was
    }

    /// The callback started running, or its reservation failed.
    pub fn clear(&mut self)
        ensures
            !final(self).is_pending(),
    {
        self.pending = false;
    }
}

/// Between two callbacks only the first request asks for one: from a cleared mark, a request
/// (as `request` ensures) needs a callback, and any request after it does not, the mark staying
/// set.
pub proof fn lemma_one_callback_per_frame(
    r0: FrameRequest,
    r1: FrameRequest,
    r2: FrameRequest,
    first: bool,
    second: bool,
)
    requires
        !r0.is_pending(),
        first == !r0.is_pending() && r1.is_pending(),
        second == !r1.is_pending() && r2.is_pending(),
    ensures
        first,
        !second,
        r2.is_pending(),
{
}

} // verus!
