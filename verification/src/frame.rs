//! A frame owned by the user until it is handed back.
use vstd::prelude::*;
use crate::desc::FrameDesc;

verus! {

/// A Frame represents a frame in the UMEM. It holds the frame's descriptor
/// until the descriptor is taken back, and hands it out only once.
pub struct Frame {
    desc: Option<FrameDesc>,
}

impl Frame {
    /// The descriptor the frame holds, if it was not taken yet.
    pub closed spec fn held(self) -> Option<FrameDesc> {
        self.desc
    }

    /// Create a new Frame.
    pub fn new(desc: FrameDesc) -> (f: Self)
        ensures
            f.held() == Some(desc),
    {
        Self { desc: Some(desc) }
    }

    /// Whether the frame still holds its descriptor.
    pub fn is_held(&self) -> (b: bool)
        ensures
            b == self.held() is Some,
    {
        self.desc.is_some()
    }

    /// Get the frame desc.
    pub fn desc(&self) -> (d: &FrameDesc)
        requires
            self.held() is Some,
        ensures
            Some(*d) == self.held(),
    {
        self.desc.as_ref().unwrap()
    }

    /// Take the descriptor out; the frame holds none afterwards.
    pub fn take_desc(&mut self) -> (d: FrameDesc)
        requires
            old(self).held() is Some,
        ensures
            Some(d) == old(self).held(),
            final(self).held() is None,
    {
        self.desc.take().unwrap()
    }

    /// The descriptor to free when the frame is dropped: the one it holds, if
    /// it was not taken yet. The frame holds none afterwards.
    pub fn release(&mut self) -> (d: Option<FrameDesc>)
        ensures
            d == old(self).held(),
            final(self).held() is None,
    {
        self.desc.take()
    }
}

} // verus!
