//! Running the pollers.
use vstd::prelude::*;
use crate::error::XdpError;

pub mod poller;

verus! {

/// Poller is a background task that polls the packet from xdk socket.
pub trait Poller: Send {
    /// Initialize the poller.
    fn init(&mut self) -> Result<(), XdpError>;

    /// Run the poller.
    fn run_once(&mut self) -> Result<(), XdpError>;
}

/// SingleThreadRunner is a simple runner to run each poller in a single thread.
#[derive(Clone, Copy, Debug)]
pub struct SingleThreadRunner {}

impl SingleThreadRunner {
    /// Create a new SingleThreadRunner.
    pub fn new() -> (r: Self)
        ensures
            r == (SingleThreadRunner {}),
    {
        Self {}
    }
}

impl Default for SingleThreadRunner {
    /// The same as `SingleThreadRunner::new`.
    fn default() -> (r: Self)
        ensures
            r == (SingleThreadRunner {}),
    {
        Self::new()
    }
}

/// The cores that pollers are bound to, handed out in turn.
///
/// It keeps an even number of cores: when it is given an odd number, the
/// last one is left out.
#[derive(Debug)]
pub struct BindCoreRunner {
    core_ids: Vec<usize>,
    next_core_id: usize,
}

/// The cores kept out of `ids`: all of them, or all but the last when their
/// number is odd.
pub open spec fn even_cores(ids: Seq<usize>) -> Seq<usize> {
    if ids.len() % 2 != 0 {
        ids.take(ids.len() - 1)
    } else {
        ids
    }
}

/// The cores kept are an even number of them, taken from the front: all of
/// them when their number is even, all but the last when it is odd.
pub proof fn lemma_even_cores(ids: Seq<usize>)
    ensures
        even_cores(ids).len() % 2 == 0,
        even_cores(ids).len() <= ids.len() <= even_cores(ids).len() + 1,
        forall|i: int| 0 <= i < even_cores(ids).len() ==> #[trigger] even_cores(ids)[i] == ids[i],
        ids.len() % 2 == 0 ==> even_cores(ids) == ids,
        ids.len() % 2 == 1 ==> even_cores(ids) == ids.take(ids.len() - 1),
{
}

impl BindCoreRunner {
    /// The cores kept, in the order they are handed out.
    pub closed spec fn cores(self) -> Seq<usize> {
        self.core_ids@
    }

    /// How many cores were handed out so far.
    pub closed spec fn handed_out(self) -> nat {
        self.next_core_id as nat
    }

    /// Create a runner over the cores `core_ids`, keeping an even number of them.
    pub fn new(core_ids: Vec<usize>) -> (r: Self)
        ensures
            r.cores() == even_cores(core_ids@),
            core_ids@.len() % 2 == 0 ==> r.cores() == core_ids@,
            core_ids@.len() % 2 == 1 ==> r.cores() == core_ids@.take(core_ids@.len() - 1),
            r.handed_out() == 0,
    {
        let mut core_ids = core_ids;
        if core_ids.len() % 2 != 0 {
            let n = core_ids.len() - 1;
            core_ids.truncate(n);
        }
        Self { core_ids, next_core_id: 0 }
    }

    /// Whether a core is left to hand out.
    pub fn has_next_core(&self) -> (b: bool)
        ensures
            b == (self.handed_out() < self.cores().len()),
    {
        self.next_core_id < self.core_ids.len()
    }

    /// The core for the next poller: the cores are handed out in order, one
    /// per poller.
    pub fn next_core(&mut self) -> (core: usize)
        requires
            old(self).handed_out() < old(self).cores().len(),
        ensures
            core == old(self).cores()[old(self).handed_out() as int],
            final(self).cores() == old(self).cores(),
            final(self).handed_out() == old(self).handed_out() + 1,
    {
        let current = self.next_core_id;
        let n = self.core_ids.len();
        assert(current < n);
        self.next_core_id = current + 1;
        self.core_ids[current]
    }
}

} // verus!
