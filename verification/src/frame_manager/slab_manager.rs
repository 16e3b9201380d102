//! A frame manager that hands frames out, and takes them back, a slab at a time.
//!
//! The manager keeps whole slabs of frames. A handle takes slabs from it to
//! allocate from, and gathers freed frames into slabs that it gives back.
use vstd::prelude::*;
use vstd::multiset::Multiset;
use crate::batch::{chunk_frames, chunks_of, lemma_chunks_flatten, lemma_chunks_sizes, views_of};
use crate::desc::FrameDesc;
use crate::error::XdpError;
use crate::frame_manager::FrameStatistics;

verus! {

/// Configuration for the SlabManager.
#[derive(Clone, Copy, Debug)]
pub struct SlabManagerConfig {
    slab_size: usize,
}

impl SlabManagerConfig {
    /// The number of frames in a full slab.
    pub closed spec fn size(self) -> nat {
        self.slab_size as nat
    }

    /// Create a new SlabManagerConfig.
    pub fn new(slab_size: usize) -> (config: Self)
        ensures
            config.size() == slab_size,
    {
        Self { slab_size }
    }

    /// The number of frames in a full slab.
    pub fn slab_size(&self) -> (n: usize)
        ensures
            n == self.size(),
    {
        self.slab_size
    }
}

impl Default for SlabManagerConfig {
    /// Slabs of 4096 frames.
    fn default() -> (config: Self)
        ensures
            config.size() == 4096,
    {
        Self::new(4096)
    }
}

/// The descriptors of a frame sequence after each was reset.
pub open spec fn reset_all(frames: Seq<FrameDesc>) -> Seq<FrameDesc> {
    frames.map_values(|f: FrameDesc| f.spec_reset())
}

/// The frames that a free hands on are the freed frames in order, each with
/// its address kept and its options and lengths cleared.
pub proof fn lemma_freed_frames_are_clear(frames: Seq<FrameDesc>)
    ensures
        reset_all(frames).len() == frames.len(),
        forall|i: int|
            0 <= i < frames.len() ==> (#[trigger] reset_all(frames)[i]).addr == frames[i].addr
                && reset_all(frames)[i].options == 0 && reset_all(frames)[i].headroom == 0
                && reset_all(frames)[i].data == 0,
{
    assert forall|i: int| 0 <= i < frames.len() implies (#[trigger] reset_all(frames)[i]).addr
        == frames[i].addr && reset_all(frames)[i].options == 0 && reset_all(frames)[i].headroom
        == 0 && reset_all(frames)[i].data == 0 by {
        crate::desc::lemma_reset_clears(frames[i]);
    }
}

/// A manager that uses a slab allocator to manage the umem memory region.
///
/// It holds whole slabs, the last one on top, and the frames freed one by one
/// that do not fill a slab yet.
#[derive(Debug)]
pub struct SlabManager {
    config: SlabManagerConfig,
    available: Vec<Vec<FrameDesc>>,
    free: Vec<FrameDesc>,
}

impl SlabManager {
    /// The number of frames in a full slab.
    pub closed spec fn slab_size(self) -> nat {
        self.config.size()
    }

    /// The slabs that the manager holds, the one handed out next last.
    pub closed spec fn slabs(self) -> Seq<Seq<FrameDesc>> {
        views_of(self.available@)
    }

    /// The frames freed one by one that do not fill a slab yet.
    pub closed spec fn loose(self) -> Seq<FrameDesc> {
        self.free@
    }

    /// No slab holds more than `slab_size` frames, and the loose frames do
    /// not fill a slab.
    pub closed spec fn wf(self) -> bool {
        &&& self.slab_size() > 0
        &&& forall|i: int|
            0 <= i < self.slabs().len() ==> #[trigger] self.slabs()[i].len() <= self.slab_size()
        &&& self.loose().len() < self.slab_size()
    }

    /// A well-formed manager's slabs hold at most `slab_size` frames each, and
    /// its loose frames fewer than that.
    pub proof fn lemma_slab_sizes(self)
        requires
            self.wf(),
        ensures
            self.slab_size() > 0,
            forall|i: int|
                0 <= i < self.slabs().len() ==> #[trigger] self.slabs()[i].len()
                    <= self.slab_size(),
            self.loose().len() < self.slab_size(),
    {
    }

    /// Create a manager that holds `frames`, cut in order into slabs of the
    /// configured size (the last slab holds what is left).
    pub fn new(config: SlabManagerConfig, frames: Vec<FrameDesc>) -> (r: Result<Self, XdpError>)
        requires
            config.size() > 0,
        ensures
            r is Ok,
            r matches Ok(m) && m.wf() && m.slab_size() == config.size() && m.slabs() == chunks_of(
                frames@,
                config.size(),
            ) && m.loose() == Seq::<FrameDesc>::empty(),
    {
        let size = config.slab_size;
        let available = chunk_frames(frames, size);
        proof {
            lemma_chunks_sizes(frames@, size as nat);
        }
        let m = Self { config, available, free: Vec::new() };
        assert(m.slabs() == chunks_of(frames@, size as nat));
        Ok(m)
    }

    /// Take the top slab.
    fn alloc_one_slab(&mut self) -> (r: Result<Vec<FrameDesc>, XdpError>)
        requires
            old(self).wf(),
        ensures
            final(self).wf(),
            final(self).slab_size() == old(self).slab_size(),
            final(self).loose() == old(self).loose(),
            match r {
                Ok(slab) => {
                    &&& old(self).slabs().len() > 0
                    &&& slab@ == old(self).slabs().last()
                    &&& final(self).slabs() == old(self).slabs().drop_last()
                },
                Err(e) => {
                    &&& old(self).slabs().len() == 0
                    &&& e == XdpError::NoMoreSlab
                    &&& final(self).slabs() == old(self).slabs()
                },
            },
    {
        let ghost before = self.available@;
        match self.available.pop() {
            Some(slab) => {
                assert(views_of(self.available@) =~= views_of(before).drop_last());
                Ok(slab)
            },
            None => Err(XdpError::NoMoreSlab),
        }
    }

    /// Put a slab on top; an empty one too.
    fn free_one_slab(&mut self, desc: Vec<FrameDesc>)
        requires
            old(self).wf(),
            desc@.len() <= old(self).slab_size(),
        ensures
            final(self).wf(),
            final(self).slab_size() == old(self).slab_size(),
            final(self).loose() == old(self).loose(),
            final(self).slabs() == old(self).slabs().push(desc@),
    {
        let ghost before = self.available@;
        self.available.push(desc);
        assert(views_of(self.available@) =~= views_of(before).push(desc@));
        assert forall|i: int| 0 <= i < self.slabs().len() implies #[trigger] self.slabs()[i].len()
            <= self.slab_size() by {
            if i < views_of(before).len() {
                assert(self.slabs()[i] == old(self).slabs()[i]);
            }
        }
    }

    /// Take back one frame. It joins the loose frames; when they fill a slab,
    /// they become the top slab.
    fn free_one_frame(&mut self, frame: FrameDesc)
        requires
            old(self).wf(),
        ensures
            final(self).wf(),
            final(self).slab_size() == old(self).slab_size(),
            old(self).loose().len() + 1 == old(self).slab_size() ==> {
                &&& final(self).slabs() == old(self).slabs().push(old(self).loose().push(frame))
                &&& final(self).loose() == Seq::<FrameDesc>::empty()
            },
            old(self).loose().len() + 1 < old(self).slab_size() ==> {
                &&& final(self).slabs() == old(self).slabs()
                &&& final(self).loose() == old(self).loose().push(frame)
            },
            final(self).loose().len() < final(self).slab_size(),
    {
        self.free.push(frame);
        assert(self.slabs() == old(self).slabs());
        if self.free.len() == self.config.slab_size {
            let mut full = Vec::with_capacity(self.config.slab_size);
            std::mem::swap(&mut full, &mut self.free);
            assert(self.slabs() == old(self).slabs());
            self.free_one_slab(full);
        }
    }

    /// A handle to allocate and free frames through this manager.
    pub fn handle(&self) -> (r: Result<SlabHandle, XdpError>)
        requires
            self.wf(),
        ensures
            r matches Ok(h) && h.wf() && h.slab_size() == self.slab_size() && h.ready()
                == Seq::<FrameDesc>::empty() && h.returned() == Seq::<FrameDesc>::empty(),
    {
        Ok(SlabHandle {
            slab_size: self.config.slab_size,
            available: Vec::with_capacity(self.config.slab_size),
            free: Vec::with_capacity(self.config.slab_size),
        })
    }

    /// A handle that frees single frames to this manager.
    pub fn free_handle(&self) -> (f: SlabFree)
        ensures
            f.slab_size() == self.slab_size(),
    {
        SlabFree { slab_size: self.config.slab_size }
    }
}

/// A free handle for the SlabManager.
pub struct SlabFree {
    slab_size: usize,
}

impl SlabFree {
    /// The slab size of the manager this handle frees to.
    pub closed spec fn slab_size(self) -> nat {
        self.slab_size as nat
    }

    /// Free a frame to the manager directly: it joins the manager's loose
    /// frames, which become a slab once they fill one.
    pub fn free(&self, manager: &mut SlabManager, frame: FrameDesc) -> (r: Result<(), XdpError>)
        requires
            old(manager).wf(),
            old(manager).slab_size() == self.slab_size(),
        ensures
            r is Ok,
            final(manager).wf(),
            final(manager).slab_size() == old(manager).slab_size(),
            old(manager).loose().len() + 1 == old(manager).slab_size() ==> {
                &&& final(manager).slabs() == old(manager).slabs().push(
                    old(manager).loose().push(frame),
                )
                &&& final(manager).loose() == Seq::<FrameDesc>::empty()
            },
            old(manager).loose().len() + 1 < old(manager).slab_size() ==> {
                &&& final(manager).slabs() == old(manager).slabs()
                &&& final(manager).loose() == old(manager).loose().push(frame)
            },
            final(manager).loose().len() < final(manager).slab_size(),
    {
        manager.free_one_frame(frame);
        Ok(())
    }
}

/// The frames that a handle is left with, and the slabs left on the manager,
/// once the handle has taken slabs from the top until it holds at least
/// `count` frames or no slab is left.
pub open spec fn refill(ready: Seq<FrameDesc>, slabs: Seq<Seq<FrameDesc>>, count: nat) -> (
    Seq<FrameDesc>,
    Seq<Seq<FrameDesc>>,
)
    decreases slabs.len(),
{
    if ready.len() >= count || slabs.len() == 0 {
        (ready, slabs)
    } else {
        refill(ready + slabs.last(), slabs.drop_last(), count)
    }
}

/// Taking slabs moves frames and loses none: the frames ready and the frames
/// in slabs add up to the same number, and the handle ends with `count`
/// frames ready or no slab is left.
pub proof fn lemma_refill_counts(ready: Seq<FrameDesc>, slabs: Seq<Seq<FrameDesc>>, count: nat)
    ensures
        refill(ready, slabs, count).0.len() + refill(ready, slabs, count).1.flatten().len()
            == ready.len() + slabs.flatten().len(),
        refill(ready, slabs, count).0.len() >= count || refill(ready, slabs, count).1.len() == 0,
    decreases slabs.len(),
{
    if ready.len() >= count || slabs.len() == 0 {
    } else {
        lemma_refill_counts(ready + slabs.last(), slabs.drop_last(), count);
        assert(slabs =~= slabs.drop_last().push(slabs.last()));
        slabs.drop_last().lemma_flatten_push(slabs.last());
    }
}

/// All frames that a manager and a handle hold between them.
pub open spec fn pool_contents(handle: SlabHandle, manager: SlabManager) -> Multiset<FrameDesc> {
    manager.slabs().flatten().to_multiset().add(manager.loose().to_multiset()).add(
        handle.ready().to_multiset(),
    ).add(handle.returned().to_multiset())
}

/// The number of frames that a manager and a handle hold between them.
pub open spec fn pool_size(handle: SlabHandle, manager: SlabManager) -> nat {
    manager.slabs().flatten().len() + manager.loose().len() + handle.ready().len()
        + handle.returned().len()
}

/// The statistics count exactly the frames held: the number of frames a
/// manager and a handle hold between them is the size of their contents.
pub proof fn lemma_pool_size_is_contents_len(handle: SlabHandle, manager: SlabManager)
    ensures
        pool_contents(handle, manager).len() == pool_size(handle, manager),
{
    vstd::seq_lib::to_multiset_len(manager.slabs().flatten());
    vstd::seq_lib::to_multiset_len(manager.loose());
    vstd::seq_lib::to_multiset_len(handle.ready());
    vstd::seq_lib::to_multiset_len(handle.returned());
    broadcast use vstd::multiset::group_multiset_axioms;
}

/// A frame that is allocated and then freed comes back reset, and the pool
/// holds as many frames as before: every other frame is where it was.
pub proof fn lemma_alloc_free_round_trip(
    h0: SlabHandle,
    m0: SlabManager,
    h1: SlabHandle,
    m1: SlabManager,
    h2: SlabHandle,
    m2: SlabManager,
    frame: FrameDesc,
)
    requires
        pool_contents(h0, m0) == pool_contents(h1, m1).insert(frame),
        pool_contents(h2, m2) == pool_contents(h1, m1).add(
            reset_all(seq![frame]).to_multiset(),
        ),
    ensures
        pool_contents(h2, m2) == pool_contents(h0, m0).remove(frame).insert(frame.spec_reset()),
        pool_size(h2, m2) == pool_size(h0, m0),
{
    broadcast use vstd::multiset::group_multiset_axioms;
    broadcast use vstd::seq_lib::group_to_multiset_ensures;
    assert(reset_all(seq![frame]) =~= Seq::<FrameDesc>::empty().push(frame.spec_reset()));
    vstd::seq_lib::to_multiset_build(Seq::<FrameDesc>::empty(), frame.spec_reset());
    assert(Seq::<FrameDesc>::empty().to_multiset() =~= Multiset::<FrameDesc>::empty());
    assert(pool_contents(h2, m2) =~= pool_contents(h0, m0).remove(frame).insert(
        frame.spec_reset(),
    ));
    lemma_pool_size_is_contents_len(h0, m0);
    lemma_pool_size_is_contents_len(h2, m2);
}

/// While frames are told apart, an allocated frame is out of the pool: once a
/// frame that the pool held once has been allocated, the pool holds it no
/// more, so no other allocation can hand it out before it is freed.
pub proof fn lemma_allocated_frame_leaves_pool(
    h0: SlabHandle,
    m0: SlabManager,
    h1: SlabHandle,
    m1: SlabManager,
    frame: FrameDesc,
)
    requires
        pool_contents(h0, m0) == pool_contents(h1, m1).insert(frame),
        pool_contents(h0, m0).count(frame) <= 1,
    ensures
        pool_contents(h1, m1).count(frame) == 0,
{
    broadcast use vstd::multiset::group_multiset_axioms;
}

/// A slab handle used to allocate, free frames.
#[derive(Debug)]
pub struct SlabHandle {
    slab_size: usize,
    available: Vec<FrameDesc>,
    free: Vec<FrameDesc>,
}

impl SlabHandle {
    /// The number of frames in a full slab.
    pub closed spec fn slab_size(self) -> nat {
        self.slab_size as nat
    }

    /// The frames ready to be allocated, the one allocated next last.
    pub closed spec fn ready(self) -> Seq<FrameDesc> {
        self.available@
    }

    /// The freed frames gathered towards the next slab to give back.
    pub closed spec fn returned(self) -> Seq<FrameDesc> {
        self.free@
    }

    /// The gathered frames do not fill a slab.
    pub closed spec fn wf(self) -> bool {
        &&& self.slab_size() > 0
        &&& self.returned().len() < self.slab_size()
    }

    /// A well-formed handle gathers fewer frames than a slab holds.
    pub proof fn lemma_returned_bound(self)
        requires
            self.wf(),
        ensures
            self.slab_size() > 0,
            self.returned().len() < self.slab_size(),
    {
    }

    /// Whether a frame is ready, so that `alloc_one` leaves the manager as it is.
    pub fn has_ready(&self) -> (b: bool)
        ensures
            b == (self.ready().len() > 0),
    {
        self.available.len() > 0
    }

    /// Whether freeing `count` frames keeps them all gathered on this handle,
    /// so that no slab goes to the manager.
    pub fn free_stays_local(&self, count: usize) -> (b: bool)
        requires
            self.wf(),
        ensures
            b == (self.returned().len() + count < self.slab_size()),
    {
        count < self.slab_size - self.free.len()
    }
}

impl SlabHandle {
    /// Take slabs from the top of `manager` until this handle holds at least
    /// `count` frames ready, or the manager has none left. Returns `count`, or
    /// the number of frames ready if that is smaller.
    pub fn reserve(&mut self, manager: &mut SlabManager, count: usize) -> (r: Result<usize, XdpError>)
        requires
            old(self).wf(),
            old(manager).wf(),
            old(self).slab_size() == old(manager).slab_size(),
        ensures
            final(self).wf(),
            final(manager).wf(),
            final(self).slab_size() == old(self).slab_size(),
            final(manager).slab_size() == old(manager).slab_size(),
            (final(self).ready(), final(manager).slabs()) == refill(
                old(self).ready(),
                old(manager).slabs(),
                count as nat,
            ),
            final(self).returned() == old(self).returned(),
            final(manager).loose() == old(manager).loose(),
            final(self).ready().len() >= count || final(manager).slabs().len() == 0,
            final(self).ready().len() + final(manager).slabs().flatten().len()
                == old(self).ready().len() + old(manager).slabs().flatten().len(),
            r matches Ok(n) && n == (if final(self).ready().len() >= count {
                count as nat
            } else {
                final(self).ready().len()
            }),
            r matches Ok(n) && n == vstd::math::min(
                count as int,
                (old(self).ready().len() + old(manager).slabs().flatten().len()) as int,
            ),
            pool_contents(*final(self), *final(manager)) == pool_contents(*old(self), *old(manager)),
    {
        proof {
            lemma_refill_counts(self.ready(), manager.slabs(), count as nat);
        }
        while self.available.len() < count
            invariant
                self.wf(),
                manager.wf(),
                self.slab_size() == old(self).slab_size(),
                manager.slab_size() == old(manager).slab_size(),
                self.slab_size() == manager.slab_size(),
                refill(self.ready(), manager.slabs(), count as nat) == refill(
                    old(self).ready(),
                    old(manager).slabs(),
                    count as nat,
                ),
                self.returned() == old(self).returned(),
                manager.loose() == old(manager).loose(),
                pool_contents(*self, *manager) == pool_contents(*old(self), *old(manager)),
            decreases manager.slabs().len(),
        {
            let ghost slabs_before = manager.slabs();
            let ghost ready_before = self.ready();
            let ghost h_before = *self;
            let ghost m_before = *manager;
            match manager.alloc_one_slab() {
                Ok(mut slab) => {
                    self.available.append(&mut slab);
                    proof {
                        let s = slabs_before.last();
                        assert(slabs_before =~= manager.slabs().push(s));
                        manager.slabs().lemma_flatten_push(s);
                        vstd::seq_lib::lemma_multiset_commutative(manager.slabs().flatten(), s);
                        vstd::seq_lib::lemma_multiset_commutative(ready_before, s);
                        assert(pool_contents(*self, *manager) =~= pool_contents(h_before, m_before));
                    }
                },
                Err(_) => {
                    proof {
                        lemma_refill_counts(old(self).ready(), old(manager).slabs(), count as nat);
                    }
                    return Ok(self.available.len());
                },
            }
        }
        Ok(count)
    }

    /// Whether `alloc_one` may be called: not when no frame is ready and the
    /// manager holds slabs that are all empty.
    pub fn alloc_one_allowed(&self, manager: &SlabManager) -> (b: bool)
        ensures
            b == (self.ready().len() > 0 || manager.slabs().len() == 0
                || manager.slabs().flatten().len() > 0),
    {
        if self.available.len() > 0 || manager.available.len() == 0 {
            return true;
        }
        let ghost slabs = manager.slabs();
        let mut i: usize = 0;
        while i < manager.available.len()
            invariant
                i <= slabs.len(),
                slabs == views_of(manager.available@),
                slabs.take(i as int).flatten().len() == 0,
            decreases slabs.len() - i,
        {
            proof {
                assert(slabs.take(i + 1) =~= slabs.take(i as int).push(slabs[i as int]));
                slabs.take(i as int).lemma_flatten_push(slabs[i as int]);
            }
            if manager.available[i].len() > 0 {
                proof {
                    assert(slabs =~= slabs.take(i + 1) + slabs.skip(i + 1));
                    vstd::seq_lib::lemma_flatten_concat(slabs.take(i + 1), slabs.skip(i + 1));
                }
                return true;
            }
            i = i + 1;
        }
        assert(slabs.take(i as int) =~= slabs);
        false
    }

    /// Allocate one frame: the top frame ready, or, when none is ready, the top
    /// frame of the topmost slab that is not empty; the slabs above it, which
    /// are empty, are taken off the manager and passed over.
    pub fn alloc_one(&mut self, manager: &mut SlabManager) -> (r: Result<FrameDesc, XdpError>)
        requires
            old(self).wf(),
            old(manager).wf(),
            old(self).slab_size() == old(manager).slab_size(),
            old(self).ready().len() > 0 || old(manager).slabs().len() == 0
                || old(manager).slabs().flatten().len() > 0,
        ensures
            final(self).wf(),
            final(manager).wf(),
            final(self).slab_size() == old(self).slab_size(),
            final(manager).slab_size() == old(manager).slab_size(),
            final(self).returned() == old(self).returned(),
            final(manager).loose() == old(manager).loose(),
            old(self).ready().len() > 0 ==> {
                &&& r == Ok::<FrameDesc, XdpError>(old(self).ready().last())
                &&& final(self).ready() == old(self).ready().drop_last()
                &&& final(manager).slabs() == old(manager).slabs()
            },
            old(self).ready().len() == 0 && old(manager).slabs().flatten().len() > 0 ==> {
                let top = skip_empty(old(manager).slabs());
                &&& top.len() > 0
                &&& r == Ok::<FrameDesc, XdpError>(top.last().last())
                &&& final(self).ready() == top.last().drop_last()
                &&& final(manager).slabs() == top.drop_last()
            },
            old(self).ready().len() == 0 && old(manager).slabs().len() == 0 ==> {
                &&& r == Err::<FrameDesc, XdpError>(XdpError::NoMoreSlab)
                &&& final(self).ready() == old(self).ready()
                &&& final(manager).slabs() == old(manager).slabs()
            },
            r is Ok ==> final(self).ready().len() + final(manager).slabs().flatten().len() + 1
                == old(self).ready().len() + old(manager).slabs().flatten().len(),
            r matches Ok(f) ==> pool_contents(*old(self), *old(manager)) == pool_contents(
                *final(self),
                *final(manager),
            ).insert(f),
    {
        let ghost h0 = *self;
        let ghost m0 = *manager;
        if let Some(frame) = self.available.pop() {
            proof {
                assert(h0.ready() =~= self.ready().push(frame));
                vstd::seq_lib::to_multiset_build(self.ready(), frame);
                assert(pool_contents(h0, m0) =~= pool_contents(*self, *manager).insert(frame));
            }
            return Ok(frame);
        }
        let ghost top = skip_empty(m0.slabs());
        proof {
            lemma_skip_empty(m0.slabs());
        }
        while self.available.len() == 0
            invariant
                self.wf(),
                manager.wf(),
                self.slab_size() == h0.slab_size(),
                manager.slab_size() == m0.slab_size(),
                self.slab_size() == manager.slab_size(),
                self.returned() == h0.returned(),
                manager.loose() == m0.loose(),
                h0 == *old(self),
                m0 == *old(manager),
                h0.ready().len() == 0,
                m0.slabs().len() == 0 || m0.slabs().flatten().len() > 0,
                top == skip_empty(m0.slabs()),
                top.flatten() == m0.slabs().flatten(),
                top.len() > 0 ==> top.last().len() > 0,
                m0.slabs().flatten().len() > 0 <==> top.len() > 0,
                self.ready().len() == 0 ==> skip_empty(manager.slabs()) == top
                    && manager.slabs().flatten() == m0.slabs().flatten(),
                self.ready().len() == 0 && manager.slabs().len() == 0 ==> manager.slabs()
                    == m0.slabs(),
                self.ready().len() > 0 ==> top.len() > 0 && self.ready() == top.last()
                    && manager.slabs() == top.drop_last(),
                pool_contents(*self, *manager) == pool_contents(h0, m0),
            decreases manager.slabs().len(),
        {
            let ghost slabs_before = manager.slabs();
            let ghost h_before = *self;
            let ghost m_before = *manager;
            match manager.alloc_one_slab() {
                Ok(mut slab) => {
                    self.available.append(&mut slab);
                    proof {
                        let s = slabs_before.last();
                        assert(slabs_before =~= manager.slabs().push(s));
                        manager.slabs().lemma_flatten_push(s);
                        vstd::seq_lib::lemma_multiset_commutative(manager.slabs().flatten(), s);
                        vstd::seq_lib::lemma_multiset_commutative(h_before.ready(), s);
                        assert(self.ready() =~= s);
                        assert(pool_contents(*self, *manager) =~= pool_contents(h_before, m_before));
                        if s.len() == 0 {
                            assert(manager.slabs().flatten() =~= slabs_before.flatten());
                        }
                    }
                },
                Err(e) => {
                    proof {
                        assert(manager.slabs() =~= m0.slabs());
                    }
                    return Err(e);
                },
            }
        }
        let ghost h1 = *self;
        match self.available.pop() {
            Some(frame) => {
                proof {
                    assert(h1.ready() =~= self.ready().push(frame));
                    assert(top =~= top.drop_last().push(top.last()));
                    top.drop_last().lemma_flatten_push(top.last());
                    vstd::seq_lib::to_multiset_build(self.ready(), frame);
                    assert(pool_contents(h1, *manager) =~= pool_contents(*self, *manager).insert(
                        frame,
                    ));
                }
                Ok(frame)
            },
            None => Err(XdpError::NoMoreSlab),
        }
    }
}

/// The slabs that are left once the empty slabs on top are passed over.
pub open spec fn skip_empty(slabs: Seq<Seq<FrameDesc>>) -> Seq<Seq<FrameDesc>>
    decreases slabs.len(),
{
    if slabs.len() > 0 && slabs.last().len() == 0 {
        skip_empty(slabs.drop_last())
    } else {
        slabs
    }
}

/// Passing over empty slabs keeps the slabs below them and loses no frame:
/// what is left is a prefix of the slabs with the same frames, whose top slab,
/// if any, is not empty; and nothing is left exactly when the slabs hold no
/// frame.
pub proof fn lemma_skip_empty(slabs: Seq<Seq<FrameDesc>>)
    ensures
        skip_empty(slabs).len() <= slabs.len(),
        skip_empty(slabs) == slabs.take(skip_empty(slabs).len() as int),
        skip_empty(slabs).flatten() == slabs.flatten(),
        skip_empty(slabs).len() > 0 ==> skip_empty(slabs).last().len() > 0,
        slabs.flatten().len() > 0 <==> skip_empty(slabs).len() > 0,
    decreases slabs.len(),
{
    if slabs.len() > 0 {
        let rest = slabs.drop_last();
        assert(slabs =~= rest.push(slabs.last()));
        rest.lemma_flatten_push(slabs.last());
        if slabs.last().len() == 0 {
            lemma_skip_empty(rest);
            assert(slabs.flatten() =~= rest.flatten());
            assert(rest.take(skip_empty(rest).len() as int) =~= slabs.take(
                skip_empty(rest).len() as int,
            ));
        } else {
            assert(slabs.take(slabs.len() as int) =~= slabs);
        }
    } else {
        assert(slabs.take(0) =~= slabs);
    }
}

/// When a manager gains slabs on top of the ones it had and a handle's
/// gathered frames change, and the new slabs followed by the gathered frames
/// are the old gathered frames followed by `added`, the two hold together
/// exactly what they held before and `added`.
proof fn lemma_free_accounting(
    h0: SlabHandle,
    m0: SlabManager,
    h1: SlabHandle,
    m1: SlabManager,
    added: Seq<FrameDesc>,
)
    requires
        m1.slabs().len() >= m0.slabs().len(),
        m1.slabs().take(m0.slabs().len() as int) == m0.slabs(),
        m1.slabs().skip(m0.slabs().len() as int).flatten() + h1.returned() == h0.returned()
            + added,
        m1.loose() == m0.loose(),
        h1.ready() == h0.ready(),
    ensures
        pool_contents(h1, m1) == pool_contents(h0, m0).add(added.to_multiset()),
{
    let old_len = m0.slabs().len() as int;
    let top = m1.slabs().skip(old_len);
    assert(m1.slabs() =~= m0.slabs() + top);
    vstd::seq_lib::lemma_flatten_concat(m0.slabs(), top);
    vstd::seq_lib::lemma_multiset_commutative(m0.slabs().flatten(), top.flatten());
    vstd::seq_lib::lemma_multiset_commutative(top.flatten(), h1.returned());
    vstd::seq_lib::lemma_multiset_commutative(h0.returned(), added);
    let f0 = m0.slabs().flatten().to_multiset();
    let ft = top.flatten().to_multiset();
    let l = m0.loose().to_multiset();
    let rd = h0.ready().to_multiset();
    let r0 = h0.returned().to_multiset();
    let r1 = h1.returned().to_multiset();
    let a = added.to_multiset();
    assert(m1.slabs().flatten().to_multiset() == f0.add(ft));
    assert(ft.add(r1) == r0.add(a));
    assert(pool_contents(h1, m1) == f0.add(ft).add(l).add(rd).add(r1));
    assert(pool_contents(h0, m0) == f0.add(l).add(rd).add(r0));
    assert(f0.add(ft).add(l).add(rd).add(r1) =~= f0.add(l).add(rd).add(r0).add(a)) by {
        assert forall|x: FrameDesc| #[trigger] f0.add(ft).add(l).add(rd).add(r1).count(x)
            == f0.add(l).add(rd).add(r0).add(a).count(x) by {
            assert(ft.add(r1).count(x) == r0.add(a).count(x));
        }
    }
}

/// Slabs that all hold `n` frames hold `n` frames per slab between them.
proof fn lemma_flatten_uniform_len(slabs: Seq<Seq<FrameDesc>>, n: nat)
    requires
        forall|i: int| 0 <= i < slabs.len() ==> #[trigger] slabs[i].len() == n,
    ensures
        slabs.flatten().len() == slabs.len() * n,
    decreases slabs.len(),
{
    if slabs.len() > 0 {
        let rest = slabs.drop_first();
        assert forall|i: int| 0 <= i < rest.len() implies #[trigger] rest[i].len() == n by {
            assert(rest[i] == slabs[i + 1]);
        }
        lemma_flatten_uniform_len(rest, n);
        assert(slabs.flatten() == slabs.first() + rest.flatten());
        assert(slabs.len() * n == n + rest.len() * n) by (nonlinear_arith)
            requires
                rest.len() == slabs.len() - 1,
        ;
    }
}

/// How many slabs a free hands to the manager, and how many frames stay
/// gathered: the gathered frames and the freed ones, divided into full slabs.
proof fn lemma_free_counts(
    h0: SlabHandle,
    m0: SlabManager,
    h1: SlabHandle,
    m1: SlabManager,
    added: Seq<FrameDesc>,
)
    requires
        m1.slab_size() > 0,
        m1.slabs().len() >= m0.slabs().len(),
        forall|i: int|
            m0.slabs().len() <= i < m1.slabs().len() ==> #[trigger] m1.slabs()[i].len()
                == m1.slab_size(),
        m1.slabs().skip(m0.slabs().len() as int).flatten() + h1.returned() == h0.returned()
            + added,
        h1.returned().len() < m1.slab_size(),
    ensures
        m1.slabs().len() == m0.slabs().len() + (h0.returned().len() + added.len())
            / m1.slab_size(),
        h1.returned().len() == (h0.returned().len() + added.len()) % m1.slab_size(),
{
    let top = m1.slabs().skip(m0.slabs().len() as int);
    assert forall|i: int| 0 <= i < top.len() implies #[trigger] top[i].len() == m1.slab_size() by {
        assert(top[i] == m1.slabs()[i + m0.slabs().len()]);
    }
    lemma_flatten_uniform_len(top, m1.slab_size());
    assert((top.flatten() + h1.returned()).len() == (h0.returned() + added).len());
    assert(h0.returned().len() + added.len() == top.len() * m1.slab_size() + h1.returned().len());
    vstd::arithmetic::div_mod::lemma_fundamental_div_mod_converse(
        (h0.returned().len() + added.len()) as int,
        m1.slab_size() as int,
        top.len() as int,
        h1.returned().len() as int,
    );
}

impl SlabHandle {
    /// Free frames. Each frame is reset and gathered on this handle; every
    /// time the gathered frames fill a slab, they go back to the top of
    /// `manager` as a slab, in the order in which they came.
    pub fn free(&mut self, manager: &mut SlabManager, frames: Vec<FrameDesc>) -> (r: Result<(), XdpError>)
        requires
            old(self).wf(),
            old(manager).wf(),
            old(self).slab_size() == old(manager).slab_size(),
        ensures
            r is Ok,
            final(self).wf(),
            final(manager).wf(),
            final(self).slab_size() == old(self).slab_size(),
            final(manager).slab_size() == old(manager).slab_size(),
            final(self).ready() == old(self).ready(),
            final(manager).loose() == old(manager).loose(),
            final(manager).slabs().len() >= old(manager).slabs().len(),
            final(manager).slabs().take(old(manager).slabs().len() as int) == old(manager).slabs(),
            forall|i: int|
                old(manager).slabs().len() <= i < final(manager).slabs().len()
                    ==> #[trigger] final(manager).slabs()[i].len() == final(manager).slab_size(),
            final(manager).slabs().skip(old(manager).slabs().len() as int).flatten()
                + final(self).returned() == old(self).returned() + reset_all(frames@),
            final(self).returned().len() < final(self).slab_size(),
            final(manager).slabs().len() == old(manager).slabs().len() + (old(self).returned().len()
                + frames@.len()) / old(self).slab_size(),
            final(self).returned().len() == (old(self).returned().len() + frames@.len())
                % old(self).slab_size(),
            pool_size(*final(self), *final(manager)) == pool_size(*old(self), *old(manager))
                + frames@.len(),
            pool_contents(*final(self), *final(manager)) == pool_contents(
                *old(self),
                *old(manager),
            ).add(reset_all(frames@).to_multiset()),
    {
        let n = self.slab_size;
        let ghost rs = reset_all(frames@);
        let ghost h0 = *self;
        let ghost m0 = *manager;
        let ghost old_len = m0.slabs().len() as int;

        let mut resets: Vec<FrameDesc> = Vec::with_capacity(frames.len());
        let mut i: usize = 0;
        while i < frames.len()
            invariant
                i <= frames@.len(),
                rs == reset_all(frames@),
                resets@ == rs.take(i as int),
            decreases frames@.len() - i,
        {
            let mut frame = frames[i];
            frame.reset();
            resets.push(frame);
            assert(resets@ =~= rs.take(i + 1));
            i = i + 1;
        }
        assert(resets@ =~= rs);

        let mut idx: usize = 0;
        while self.free.len() < n
            invariant
                idx <= rs.len(),
                resets@ == rs,
                n == self.slab_size,
                self.free@.len() <= n,
                self.free@ == h0.returned() + rs.take(idx as int),
                self.slab_size == h0.slab_size,
                self.available == h0.available,
                *manager == m0,
                h0.wf(),
                m0.wf(),
                rs == reset_all(frames@),
                h0 == *old(self),
                m0 == *old(manager),
                h0.slab_size() == m0.slab_size(),
                old_len == m0.slabs().len(),
            decreases rs.len() - idx,
        {
            if idx < resets.len() {
                self.free.push(resets[idx]);
                assert(self.free@ =~= h0.returned() + rs.take(idx + 1));
                idx = idx + 1;
            } else {
                proof {
                    assert(rs.take(idx as int) =~= rs);
                    assert(manager.slabs().skip(old_len) =~= Seq::<Seq<FrameDesc>>::empty());
                    assert(manager.slabs().take(old_len) =~= m0.slabs());
                    assert(manager.slabs().skip(old_len).flatten() + self.returned() =~= h0.returned() + rs);
                    lemma_free_accounting(h0, m0, *self, *manager, rs);
                    lemma_free_counts(h0, m0, *self, *manager, rs);
                    lemma_pool_size_is_contents_len(h0, m0);
                    lemma_pool_size_is_contents_len(*self, *manager);
                    vstd::seq_lib::to_multiset_len(rs);
                    broadcast use vstd::multiset::group_multiset_axioms;
                }
                return Ok(());
            }
        }

        let mut full: Vec<FrameDesc> = Vec::with_capacity(n);
        std::mem::swap(&mut full, &mut self.free);
        manager.free_one_slab(full);
        let ghost first = h0.returned() + rs.take(idx as int);
        proof {
            assert(manager.slabs().skip(old_len) =~= seq![first]);
            seq![first].lemma_flatten_one_element();
            assert(manager.slabs().take(old_len) =~= m0.slabs());
        }

        let rest = resets.split_off(idx);
        let ghost cs = chunks_of(rs.skip(idx as int), n as nat);
        proof {
            assert(rest@ =~= rs.skip(idx as int));
            lemma_chunks_sizes(rs.skip(idx as int), n as nat);
            lemma_chunks_flatten(rs.skip(idx as int), n as nat);
            assert(cs.take(0) =~= Seq::<Seq<FrameDesc>>::empty());
            assert(self.free@ =~= Seq::<FrameDesc>::empty());
        }
        let mut chunks = chunk_frames(rest, n);
        let ghost mut j: int = 0;
        while chunks.len() > 0
            invariant
                0 <= j <= cs.len(),
                views_of(chunks@) == cs.skip(j),
                forall|k: int| 0 <= k < cs.len() ==> 0 < #[trigger] cs[k].len() <= n,
                forall|k: int| 0 <= k < cs.len() - 1 ==> #[trigger] cs[k].len() == n,
                n == self.slab_size,
                n == manager.slab_size(),
                n > 0,
                old_len == m0.slabs().len(),
                rs == reset_all(frames@),
                h0 == *old(self),
                m0 == *old(manager),
                manager.wf(),
                manager.loose() == m0.loose(),
                self.available == h0.available,
                manager.slabs().len() >= old_len,
                manager.slabs().take(old_len) == m0.slabs(),
                forall|k: int|
                    old_len <= k < manager.slabs().len() ==> #[trigger] manager.slabs()[k].len()
                        == n,
                manager.slabs().skip(old_len).flatten() + self.free@ == first + cs.take(j).flatten(),
                self.free@.len() == 0 || j == cs.len(),
                self.free@.len() < n,
            decreases chunks@.len(),
        {
            let ghost before = chunks@;
            let ghost slabs_before = manager.slabs();
            let ghost free_before = self.free@;
            let mut chunk = chunks.remove(0);
            proof {
                assert(views_of(chunks@) =~= views_of(before).drop_first());
                assert(views_of(before)[0] == before[0]@);
                assert(views_of(before)[0] == cs.skip(j)[0]);
                assert(chunk@ == cs[j]);
                assert(cs.take(j + 1) =~= cs.take(j).push(cs[j]));
                cs.take(j).lemma_flatten_push(cs[j]);
            }
            if chunk.len() < n {
                self.free.append(&mut chunk);
                proof {
                    assert(free_before =~= Seq::<FrameDesc>::empty());
                    assert(manager.slabs().skip(old_len).flatten() + self.free@ =~= first + cs.take(
                        j + 1,
                    ).flatten());
                }
            } else {
                manager.free_one_slab(chunk);
                proof {
                    assert(manager.slabs().skip(old_len) =~= slabs_before.skip(old_len).push(cs[j]));
                    slabs_before.skip(old_len).lemma_flatten_push(cs[j]);
                    assert(manager.slabs().take(old_len) =~= slabs_before.take(old_len));
                    assert(manager.slabs().skip(old_len).flatten() + self.free@ =~= first + cs.take(
                        j + 1,
                    ).flatten());
                }
            }
            proof {
                j = j + 1;
                assert(views_of(chunks@) =~= cs.skip(j));
            }
        }
        proof {
            assert(cs.skip(j).len() == 0);
            assert(cs.take(j) =~= cs);
            assert(rs.take(idx as int) + rs.skip(idx as int) =~= rs);
            assert(manager.slabs().skip(old_len).flatten() + self.returned() =~= h0.returned() + rs);
            lemma_free_accounting(h0, m0, *self, *manager, rs);
            lemma_free_counts(h0, m0, *self, *manager, rs);
            lemma_pool_size_is_contents_len(h0, m0);
            lemma_pool_size_is_contents_len(*self, *manager);
            vstd::seq_lib::to_multiset_len(rs);
            broadcast use vstd::multiset::group_multiset_axioms;
        }
        Ok(())
    }

    /// Statics for the number of frames: all frames that `manager` and this
    /// handle hold between them.
    pub fn statistics(&self, manager: &SlabManager) -> (s: FrameStatistics)
        requires
            pool_size(*self, *manager) <= usize::MAX,
        ensures
            s.total_available == pool_size(*self, *manager),
    {
        let ghost slabs = manager.slabs();
        let mut total: usize = 0;
        let mut i: usize = 0;
        while i < manager.available.len()
            invariant
                i <= slabs.len(),
                slabs == views_of(manager.available@),
                total == slabs.take(i as int).flatten().len(),
                pool_size(*self, *manager) <= usize::MAX,
            decreases slabs.len() - i,
        {
            proof {
                assert(slabs.take(i + 1) =~= slabs.take(i as int).push(slabs[i as int]));
                slabs.take(i as int).lemma_flatten_push(slabs[i as int]);
                assert(slabs =~= slabs.take(i + 1) + slabs.skip(i + 1));
                vstd::seq_lib::lemma_flatten_concat(slabs.take(i + 1), slabs.skip(i + 1));
            }
            total = total + manager.available[i].len();
            i = i + 1;
        }
        assert(slabs.take(i as int) =~= slabs);
        FrameStatistics {
            total_available: total + manager.free.len() + self.free.len() + self.available.len(),
        }
    }
}

} // verus!
