//! The errors that the library reports.
use vstd::prelude::*;

verus! {

/// What can go wrong when frames are allocated or packets are exchanged.
#[derive(Clone, Copy, Debug, PartialEq, Eq, Structural)]
pub enum XdpError {
    /// The frame manager has no slab of frames left to hand out.
    NoMoreSlab,
    /// The receive handle of a context was already taken.
    ReceiveHandleTaken,
    /// The other end of a channel was dropped.
    Closed,
    /// The socket or the UMEM reported an I/O error.
    Io,
}

impl XdpError {
    /// A message that describes the error.
    pub fn message(&self) -> (s: &'static str)
        ensures
            *self == XdpError::NoMoreSlab ==> s@ == "no more available slab"@,
            *self == XdpError::ReceiveHandleTaken ==> s@
                == "The receive handle has been created, can not create another one"@,
            *self == XdpError::Closed ==> s@ == "CLose"@,
            *self == XdpError::Io ==> s@ == "I/O error on the XDP socket"@,
    {
        match self {
            XdpError::NoMoreSlab => "no more available slab",
            XdpError::ReceiveHandleTaken => "The receive handle has been created, can not create another one",
            XdpError::Closed => "CLose",
            XdpError::Io => "I/O error on the XDP socket",
        }
    }
}

} // verus!
