//! Frame descriptors: where a frame sits in the UMEM and how much of it is in use.
use vstd::prelude::*;

verus! {

/// A descriptor of one UMEM frame.
///
/// `addr` is the offset of the frame's packet data segment from the start of the
/// UMEM; `headroom` and `data` are the lengths in use of the headroom and packet
/// data segments; `options` holds the descriptor's option bits.
#[derive(Clone, Copy, Debug, PartialEq, Eq, Structural)]
pub struct FrameDesc {
    pub addr: usize,
    pub options: u32,
    pub headroom: usize,
    pub data: usize,
}

impl FrameDesc {
    /// The descriptor that `reset` leaves behind: the same frame, with no
    /// options and no bytes in use.
    pub open spec fn spec_reset(self) -> FrameDesc {
        FrameDesc { addr: self.addr, options: 0, headroom: 0, data: 0 }
    }

    /// A descriptor of the frame at `addr`, with no options and no bytes in use.
    pub fn new(addr: usize) -> (d: FrameDesc)
        ensures
            d == (FrameDesc { addr: addr, options: 0, headroom: 0, data: 0 }),
    {
        FrameDesc { addr, options: 0, headroom: 0, data: 0 }
    }

    /// The frame's address in the UMEM.
    pub fn addr(&self) -> (a: usize)
        ensures
            a == self.addr,
    {
        self.addr
    }

    /// The descriptor's option bits.
    pub fn options(&self) -> (o: u32)
        ensures
            o == self.options,
    {
        self.options
    }

    /// Sets the descriptor's option bits.
    pub fn set_options(&mut self, options: u32)
        ensures
            *final(self) == (FrameDesc { options: options, ..*old(self) }),
    {
        self.options = options;
    }

    /// Prepares the descriptor for reuse: it keeps its frame and loses its
    /// options and segment lengths.
    pub fn reset(&mut self)
        ensures
            *final(self) == old(self).spec_reset(),
            final(self).addr == old(self).addr,
            final(self).options == 0,
            final(self).headroom == 0,
            final(self).data == 0,
    {
        self.options = 0;
        self.headroom = 0;
        self.data = 0;
    }
}

/// Resetting a descriptor keeps its frame and clears everything else: no
/// option bits, and no bytes in use in the headroom or the packet data,
/// whatever the descriptor held before.
pub proof fn lemma_reset_clears(d: FrameDesc)
    ensures
        d.spec_reset().addr == d.addr,
        d.spec_reset().options == 0,
        d.spec_reset().headroom == 0,
        d.spec_reset().data == 0,
{
}

impl Default for FrameDesc {
    /// The descriptor of address zero with nothing in use.
    fn default() -> (d: FrameDesc)
        ensures
            d == (FrameDesc { addr: 0, options: 0, headroom: 0, data: 0 }),
    {
        FrameDesc::new(0)
    }
}

} // verus!
