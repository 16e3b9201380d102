//! The decisions of the background task that moves frames between the
//! socket's rings, the frame manager and the context.
use vstd::prelude::*;
use std::collections::HashSet;
use crate::batch::{chunk_frames, chunks_of, lemma_chunks_sizes, views_of, FrameBatch};
use crate::desc::FrameDesc;
use crate::error::XdpError;
use crate::frame_manager::slab_manager::{
    lemma_refill_counts,
    pool_contents,
    refill,
    SlabHandle,
    SlabManager,
};

verus! {

broadcast use vstd::std_specs::hash::group_hash_axioms;

/// The largest number of frame descriptors that one message carries.
pub const BATCH_SIZSE: usize = 32;

/// A request to the poller to send packets.
pub enum XdpSendMsg {
    /// Send the packets already written in these frames.
    SendFrame { elements: Vec<FrameDesc> },
    /// Copy these bytes into a fresh frame and send it.
    Send(Vec<u8>),
}

/// Packets handed from the poller to the context.
pub enum XdpReceiveMsg {
    /// Frames that hold received packets.
    Recv(FrameBatch),
}

/// Whether the poller should take another send request in this round.
#[derive(Clone, Copy, Debug, PartialEq, Eq, Structural)]
pub enum TxAction {
    /// There is room for another full batch.
    Continue,
    /// Less than a batch of room is left: send what is queued.
    Stop,
}

/// What to do after offering `cnt` descriptors to a ring that took `produced`
/// of them.
#[derive(Clone, Copy, Debug, PartialEq, Eq, Structural)]
pub enum RingStep {
    /// The ring took them all.
    Done,
    /// The ring took none and the kernel must be woken up before trying again.
    Wakeup,
    /// The ring took none: try again.
    Retry,
}

/// The step after offering `cnt` descriptors to a ring, which takes all of
/// them or none: done when it took them all, else wake the kernel when the
/// ring asks for it, and try again.
pub fn ring_step(produced: usize, cnt: usize, needs_wakeup: bool) -> (step: RingStep)
    requires
        produced == 0 || produced == cnt,
    ensures
        step == (if produced == cnt {
            RingStep::Done
        } else if needs_wakeup {
            RingStep::Wakeup
        } else {
            RingStep::Retry
        }),
{
    if produced == cnt {
        RingStep::Done
    } else if needs_wakeup {
        RingStep::Wakeup
    } else {
        RingStep::Retry
    }
}

/// The messages that hand `frames` over to the context: the frames cut in
/// order into batches of `BATCH_SIZSE`, the last one possibly shorter.
pub fn recv_batches(frames: &[FrameDesc]) -> (msgs: Vec<XdpReceiveMsg>)
    ensures
        msgs.len() == chunks_of(frames@, BATCH_SIZSE as nat).len(),
        forall|i: int|
            0 <= i < msgs.len() ==> (#[trigger] msgs[i] matches XdpReceiveMsg::Recv(b)
                && b.frames() == chunks_of(frames@, BATCH_SIZSE as nat)[i]),
{
    let copy = vstd::slice::slice_to_vec(frames);
    let chunks = chunk_frames(copy, BATCH_SIZSE);
    let ghost cs = chunks_of(frames@, BATCH_SIZSE as nat);
    proof {
        lemma_chunks_sizes(frames@, BATCH_SIZSE as nat);
    }
    let mut msgs: Vec<XdpReceiveMsg> = Vec::new();
    let mut i: usize = 0;
    while i < chunks.len()
        invariant
            i <= chunks@.len(),
            views_of(chunks@) == cs,
            forall|k: int| 0 <= k < cs.len() ==> #[trigger] cs[k].len() <= BATCH_SIZSE,
            msgs.len() == i,
            forall|k: int|
                0 <= k < i ==> (#[trigger] msgs[k] matches XdpReceiveMsg::Recv(b) && b.frames()
                    == cs[k]),
        decreases chunks@.len() - i,
    {
        assert(views_of(chunks@)[i as int] == chunks@[i as int]@);
        let batch = FrameBatch::from_slice(chunks[i].as_slice());
        msgs.push(XdpReceiveMsg::Recv(batch));
        i = i + 1;
    }
    msgs
}

/// Allocate up to `cnt` frames into the front of `burst`, to be given to the
/// fill queue. The handle first takes slabs until it holds `cnt` frames or
/// the manager runs out; the frames then leave it from the top, the first one
/// into `burst[0]`. Returns how many frames were placed.
pub fn fill_frames(
    handle: &mut SlabHandle,
    manager: &mut SlabManager,
    burst: &mut Vec<FrameDesc>,
    cnt: usize,
) -> (r: Result<usize, XdpError>)
    requires
        old(handle).wf(),
        old(manager).wf(),
        old(handle).slab_size() == old(manager).slab_size(),
        cnt <= old(burst)@.len(),
    ensures
        final(handle).wf(),
        final(manager).wf(),
        final(handle).slab_size() == old(handle).slab_size(),
        final(manager).slab_size() == old(manager).slab_size(),
        final(handle).returned() == old(handle).returned(),
        final(manager).loose() == old(manager).loose(),
        final(burst)@.len() == old(burst)@.len(),
        r matches Ok(n) && {
            let (ready, slabs) = refill(old(handle).ready(), old(manager).slabs(), cnt as nat);
            &&& n == vstd::math::min(
                cnt as int,
                (old(handle).ready().len() + old(manager).slabs().flatten().len()) as int,
            )
            &&& n <= ready.len()
            &&& final(manager).slabs() == slabs
            &&& final(handle).ready() == ready.take(ready.len() - n)
            &&& forall|i: int| 0 <= i < n ==> #[trigger] final(burst)@[i] == ready[ready.len() - 1 - i]
            &&& forall|i: int| n <= i < old(burst)@.len() ==> #[trigger] final(burst)@[i] == old(burst)@[i]
            &&& pool_contents(*old(handle), *old(manager)) == pool_contents(
                *final(handle),
                *final(manager),
            ).add(final(burst)@.take(n as int).to_multiset())
        },
{
    if cnt == 0 {
        proof {
            assert(old(burst)@.take(0) =~= Seq::<FrameDesc>::empty());
            vstd::seq_lib::to_multiset_len(old(burst)@.take(0));
            vstd::multiset::lemma_multiset_empty_len(old(burst)@.take(0).to_multiset());
            assert(pool_contents(*handle, *manager) =~= pool_contents(*handle, *manager).add(
                old(burst)@.take(0).to_multiset(),
            ));
            assert(handle.ready().take(handle.ready().len() as int) =~= handle.ready());
        }
        return Ok(0);
    }
    let cnt = match handle.reserve(manager, cnt) {
        Ok(n) => n,
        Err(e) => {
            return Err(e);
        },
    };
    let ghost ready = handle.ready();
    let ghost h1 = *handle;
    let ghost m1 = *manager;
    let mut i: usize = 0;
    proof {
        assert(burst@.take(0) =~= Seq::<FrameDesc>::empty());
        vstd::seq_lib::to_multiset_len(burst@.take(0));
        vstd::multiset::lemma_multiset_empty_len(burst@.take(0).to_multiset());
        assert(pool_contents(*handle, *manager) =~= pool_contents(*handle, *manager).add(
            burst@.take(0).to_multiset(),
        ));
        assert(ready.take(ready.len() as int) =~= ready);
    }
    while i < cnt
        invariant
            i <= cnt <= ready.len(),
            cnt <= burst@.len(),
            handle.wf(),
            manager.wf(),
            handle.slab_size() == manager.slab_size(),
            handle.slab_size() == h1.slab_size(),
            manager.slab_size() == m1.slab_size(),
            handle.returned() == h1.returned(),
            manager.loose() == m1.loose(),
            manager.slabs() == m1.slabs(),
            handle.ready() == ready.take(ready.len() - i),
            burst@.len() == old(burst)@.len(),
            forall|k: int| 0 <= k < i ==> #[trigger] burst@[k] == ready[ready.len() - 1 - k],
            forall|k: int| i <= k < burst@.len() ==> #[trigger] burst@[k] == old(burst)@[k],
            pool_contents(h1, m1) == pool_contents(*handle, *manager).add(
                burst@.take(i as int).to_multiset(),
            ),
        decreases cnt - i,
    {
        let ghost h_before = *handle;
        let ghost m_before = *manager;
        let ghost b_before = burst@;
        let frame = match handle.alloc_one(manager) {
            Ok(f) => f,
            Err(e) => {
                return Err(e);
            },
        };
        burst.set(i, frame);
        proof {
            assert(frame == ready[ready.len() - 1 - i]);
            assert(handle.ready() =~= ready.take(ready.len() - (i + 1)));
            assert(burst@.take(i + 1) =~= b_before.take(i as int).push(frame));
            vstd::seq_lib::to_multiset_build(b_before.take(i as int), frame);
            assert(pool_contents(h1, m1) =~= pool_contents(*handle, *manager).add(
                burst@.take(i + 1).to_multiset(),
            ));
        }
        i = i + 1;
    }
    Ok(cnt)
}

/// Allocate the frame that a `Send` request is copied into: the handle first
/// makes sure it holds one frame ready, then allocates it.
pub fn alloc_send_frame(handle: &mut SlabHandle, manager: &mut SlabManager) -> (r: Result<
    FrameDesc,
    XdpError,
>)
    requires
        old(handle).wf(),
        old(manager).wf(),
        old(handle).slab_size() == old(manager).slab_size(),
    ensures
        final(handle).wf(),
        final(manager).wf(),
        final(handle).slab_size() == old(handle).slab_size(),
        final(manager).slab_size() == old(manager).slab_size(),
        final(handle).returned() == old(handle).returned(),
        final(manager).loose() == old(manager).loose(),
        ({
            let (ready, slabs) = refill(old(handle).ready(), old(manager).slabs(), 1);
            &&& ready.len() > 0 ==> {
                &&& r == Ok::<FrameDesc, XdpError>(ready.last())
                &&& final(handle).ready() == ready.drop_last()
                &&& final(manager).slabs() == slabs
            }
            &&& ready.len() == 0 ==> {
                &&& r == Err::<FrameDesc, XdpError>(XdpError::NoMoreSlab)
                &&& final(handle).ready() == ready
                &&& final(manager).slabs() == slabs
            }
        }),
        r is Ok <==> old(handle).ready().len() + old(manager).slabs().flatten().len() > 0,
        r matches Ok(f) ==> pool_contents(*old(handle), *old(manager)) == pool_contents(
            *final(handle),
            *final(manager),
        ).insert(f),
{
    proof {
        lemma_refill_counts(old(handle).ready(), old(manager).slabs(), 1);
    }
    match handle.reserve(manager, 1) {
        Ok(_) => {},
        Err(e) => {
            return Err(e);
        },
    }
    handle.alloc_one(manager)
}

/// The descriptors that `burst` holds at a moment of a send round: room for
/// `capacity` frames, of which the first `len` are queued for the TX ring.
pub struct TxBurst {
    slots: Vec<FrameDesc>,
    cnt: usize,
}

impl TxBurst {
    /// How many frames the burst can queue.
    pub closed spec fn capacity(self) -> nat {
        self.slots@.len()
    }

    /// The frames queued, in order.
    pub closed spec fn queued(self) -> Seq<FrameDesc> {
        self.slots@.take(self.cnt as int)
    }

    /// No more frames are queued than there is room for.
    pub closed spec fn wf(self) -> bool {
        self.cnt <= self.slots@.len()
    }

    /// The action after queueing: stop once less than a batch of room is left.
    pub open spec fn action_after(self) -> TxAction {
        if self.capacity() - self.queued().len() < BATCH_SIZSE {
            TxAction::Stop
        } else {
            TxAction::Continue
        }
    }

    /// A burst with room for `size` frames and nothing queued.
    pub fn new(size: usize) -> (t: TxBurst)
        ensures
            t.wf(),
            t.capacity() == size,
            t.queued() == Seq::<FrameDesc>::empty(),
    {
        let mut slots: Vec<FrameDesc> = Vec::with_capacity(size);
        let mut i: usize = 0;
        while i < size
            invariant
                i <= size,
                slots@.len() == i,
            decreases size - i,
        {
            slots.push(FrameDesc::new(0));
            i = i + 1;
        }
        let t = TxBurst { slots, cnt: 0 };
        assert(t.queued() =~= Seq::<FrameDesc>::empty());
        t
    }

    /// The number of frames queued.
    pub fn len(&self) -> (n: usize)
        requires
            self.wf(),
        ensures
            n == self.queued().len(),
    {
        self.cnt
    }

    /// How many more frames fit.
    pub fn room(&self) -> (n: usize)
        requires
            self.wf(),
        ensures
            n == self.capacity() - self.queued().len(),
    {
        self.slots.len() - self.cnt
    }

    /// The frames queued, in order.
    pub fn queued_frames(&self) -> (s: &[FrameDesc])
        requires
            self.wf(),
        ensures
            s@ == self.queued(),
    {
        let all = self.slots.as_slice();
        let s = &all[0..self.cnt];
        assert(s@ =~= self.queued());
        s
    }

    /// Queue `frames` after the frames already queued.
    pub fn push_frames(&mut self, frames: &[FrameDesc]) -> (a: TxAction)
        requires
            old(self).wf(),
            old(self).queued().len() + frames@.len() <= old(self).capacity(),
        ensures
            final(self).wf(),
            final(self).capacity() == old(self).capacity(),
            final(self).queued() == old(self).queued() + frames@,
            a == final(self).action_after(),
            a == TxAction::Stop <==> final(self).capacity() - final(self).queued().len() < BATCH_SIZSE,
            final(self).queued().len() == final(self).capacity() ==> a == TxAction::Stop,
    {
        let mut j: usize = 0;
        let ghost start = self.cnt as int;
        let ghost q0 = old(self).queued();
        while j < frames.len()
            invariant
                j <= frames@.len(),
                start == old(self).cnt,
                self.cnt == start + j,
                self.slots@.len() == old(self).capacity(),
                start + frames@.len() <= self.slots@.len(),
                self.queued() == q0 + frames@.take(j as int),
                q0 == old(self).slots@.take(start),
            decreases frames@.len() - j,
        {
            let ghost before = self.slots@;
            let len = self.slots.len();
            assert(self.cnt < len);
            self.slots.set(self.cnt, frames[j]);
            self.cnt = self.cnt + 1;
            assert(self.queued() =~= before.take(start + j).push(frames@[j as int]));
            assert(frames@.take(j + 1) =~= frames@.take(j as int).push(frames@[j as int]));
            assert(self.queued() =~= q0 + frames@.take(j + 1));
            j = j + 1;
        }
        assert(frames@.take(frames@.len() as int) =~= frames@);
        if self.slots.len() - self.cnt < BATCH_SIZSE {
            TxAction::Stop
        } else {
            TxAction::Continue
        }
    }

    /// Queue one frame after the frames already queued.
    pub fn push_frame(&mut self, frame: FrameDesc) -> (a: TxAction)
        requires
            old(self).wf(),
            old(self).queued().len() < old(self).capacity(),
        ensures
            final(self).wf(),
            final(self).capacity() == old(self).capacity(),
            final(self).queued() == old(self).queued().push(frame),
            a == final(self).action_after(),
            a == TxAction::Stop <==> final(self).capacity() - final(self).queued().len() < BATCH_SIZSE,
            final(self).queued().len() == final(self).capacity() ==> a == TxAction::Stop,
    {
        let len = self.slots.len();
        assert(self.cnt < len);
        self.slots.set(self.cnt, frame);
        self.cnt = self.cnt + 1;
        assert(self.queued() =~= old(self).queued().push(frame));
        if self.slots.len() - self.cnt < BATCH_SIZSE {
            TxAction::Stop
        } else {
            TxAction::Continue
        }
    }

    /// Forget the queued frames, keeping the room.
    pub fn clear(&mut self)
        ensures
            final(self).wf(),
            final(self).capacity() == old(self).capacity(),
            final(self).queued() == Seq::<FrameDesc>::empty(),
    {
        self.cnt = 0;
        assert(self.queued() =~= Seq::<FrameDesc>::empty());
    }
}

/// A burst stops the send round exactly when it has room for less than a
/// full batch; in particular a full burst always stops it, and a burst with
/// a batch of room or more always goes on.
pub proof fn lemma_burst_action(t: TxBurst)
    requires
        t.wf(),
    ensures
        t.action_after() == TxAction::Stop <==> t.capacity() - t.queued().len() < BATCH_SIZSE,
        t.queued().len() == t.capacity() ==> t.action_after() == TxAction::Stop,
        t.capacity() - t.queued().len() >= BATCH_SIZSE ==> t.action_after() == TxAction::Continue,
{
}

/// The addresses of a sequence of frames.
pub open spec fn addrs_of(frames: Seq<FrameDesc>) -> Seq<usize> {
    frames.map_values(|f: FrameDesc| f.addr)
}

/// The addresses, in order, that were already in flight when a frame with
/// that address was sent: in `in_flight`, or sent earlier in `addrs`.
pub open spec fn resent(in_flight: Set<usize>, addrs: Seq<usize>) -> Seq<usize>
    decreases addrs.len(),
{
    if addrs.len() == 0 {
        Seq::empty()
    } else {
        let earlier = resent(in_flight, addrs.drop_last());
        if in_flight.union(addrs.drop_last().to_set()).contains(addrs.last()) {
            earlier.push(addrs.last())
        } else {
            earlier
        }
    }
}

/// The addresses, in order, that were not in flight when a frame with that
/// address completed: not in `in_flight`, or already completed earlier in
/// `addrs`.
pub open spec fn unexpected(in_flight: Set<usize>, addrs: Seq<usize>) -> Seq<usize>
    decreases addrs.len(),
{
    if addrs.len() == 0 {
        Seq::empty()
    } else {
        let earlier = unexpected(in_flight, addrs.drop_last());
        if in_flight.difference(addrs.drop_last().to_set()).contains(addrs.last()) {
            earlier
        } else {
            earlier.push(addrs.last())
        }
    }
}

/// The addresses of the frames handed to the TX ring and not completed yet.
pub struct InFlight {
    addrs: HashSet<usize>,
}

impl InFlight {
    /// The addresses in flight.
    pub closed spec fn view(self) -> Set<usize> {
        self.addrs@
    }

    /// Finitely many addresses are in flight.
    pub closed spec fn wf(self) -> bool {
        self.addrs@.finite()
    }

    /// Nothing in flight.
    pub fn new() -> (t: InFlight)
        ensures
            t.wf(),
            t.view() == Set::<usize>::empty(),
    {
        InFlight { addrs: HashSet::new() }
    }

    /// Whether nothing is in flight.
    pub fn is_empty(&self) -> (b: bool)
        requires
            self.wf(),
        ensures
            b == (self.view() == Set::<usize>::empty()),
    {
        let b = self.addrs.len() == 0;
        proof {
            vstd::std_specs::hash::axiom_spec_hash_set_len(&self.addrs);
            if b {
                assert forall|a: usize| !#[trigger] self.view().contains(a) by {
                    if self.view().contains(a) {
                        vstd::set::axiom_set_contains_len(self.view(), a);
                    }
                }
                assert(self.view() =~= Set::<usize>::empty());
            } else {
                assert(self.view().len() != 0);
                assert(self.view() != Set::<usize>::empty());
            }
        }
        b
    }

    /// The addresses in flight.
    pub fn addresses(&self) -> (s: &HashSet<usize>)
        ensures
            s@ == self.view(),
    {
        &self.addrs
    }

    /// Record that `frames` went to the TX ring. Returns the addresses that
    /// were in flight already, in order.
    pub fn record_sent(&mut self, frames: &[FrameDesc]) -> (dups: Vec<usize>)
        requires
            old(self).wf(),
        ensures
            final(self).wf(),
            final(self).view() == old(self).view().union(addrs_of(frames@).to_set()),
            dups@ == resent(old(self).view(), addrs_of(frames@)),
    {
        let ghost s0 = self.view();
        let ghost addrs = addrs_of(frames@);
        let mut dups: Vec<usize> = Vec::new();
        let mut i: usize = 0;
        while i < frames.len()
            invariant
                i <= frames@.len(),
                addrs == addrs_of(frames@),
                self.view() == s0.union(addrs.take(i as int).to_set()),
                self.wf(),
                dups@ == resent(s0, addrs.take(i as int)),
            decreases frames@.len() - i,
        {
            let addr = frames[i].addr;
            proof {
                let t = addrs.take(i + 1);
                assert(t.drop_last() =~= addrs.take(i as int));
                assert(t.last() == addr);
                assert(t =~= addrs.take(i as int).push(addr));
                addrs.take(i as int).lemma_push_to_set_commute(addr);
                vstd::seq_lib::seq_to_set_is_finite(t);
            }
            if !self.addrs.insert(addr) {
                dups.push(addr);
            }
            proof {
                assert(self.view() =~= s0.union(addrs.take(i + 1).to_set()));
            }
            i = i + 1;
        }
        assert(addrs.take(frames@.len() as int) =~= addrs);
        dups
    }

    /// Record that `frames` came back through the completion ring. Returns
    /// the addresses that were not in flight, in order.
    pub fn record_completed(&mut self, frames: &[FrameDesc]) -> (missing: Vec<usize>)
        requires
            old(self).wf(),
        ensures
            final(self).wf(),
            final(self).view() == old(self).view().difference(addrs_of(frames@).to_set()),
            missing@ == unexpected(old(self).view(), addrs_of(frames@)),
    {
        let ghost s0 = self.view();
        let ghost addrs = addrs_of(frames@);
        let mut missing: Vec<usize> = Vec::new();
        let mut i: usize = 0;
        while i < frames.len()
            invariant
                i <= frames@.len(),
                addrs == addrs_of(frames@),
                self.view() == s0.difference(addrs.take(i as int).to_set()),
                self.wf(),
                missing@ == unexpected(s0, addrs.take(i as int)),
            decreases frames@.len() - i,
        {
            let addr = frames[i].addr;
            proof {
                let t = addrs.take(i + 1);
                assert(t.drop_last() =~= addrs.take(i as int));
                assert(t.last() == addr);
                assert(t =~= addrs.take(i as int).push(addr));
                addrs.take(i as int).lemma_push_to_set_commute(addr);
                vstd::seq_lib::seq_to_set_is_finite(t);
            }
            if !self.addrs.remove(&addr) {
                missing.push(addr);
            }
            proof {
                assert(self.view() =~= s0.difference(addrs.take(i + 1).to_set()));
            }
            i = i + 1;
        }
        assert(addrs.take(frames@.len() as int) =~= addrs);
        missing
    }
}

/// Sending frames whose addresses are distinct and not in flight reports no
/// resent address.
pub proof fn lemma_fresh_sends_report_nothing(in_flight: Set<usize>, addrs: Seq<usize>)
    requires
        addrs.no_duplicates(),
        forall|a: usize| addrs.contains(a) ==> !in_flight.contains(a),
    ensures
        resent(in_flight, addrs) == Seq::<usize>::empty(),
    decreases addrs.len(),
{
    if addrs.len() > 0 {
        let prefix = addrs.drop_last();
        assert forall|a: usize| prefix.contains(a) implies !in_flight.contains(a) by {
            let k = choose|k: int| 0 <= k < prefix.len() && prefix[k] == a;
            assert(addrs[k] == a);
        }
        lemma_fresh_sends_report_nothing(in_flight, prefix);
        assert(addrs.contains(addrs.last()));
        if prefix.contains(addrs.last()) {
            let k = choose|k: int| 0 <= k < prefix.len() && prefix[k] == addrs.last();
            assert(addrs[k] == addrs[addrs.len() - 1]);
        }
    }
}

/// Completing frames whose addresses are distinct and all in flight reports
/// no unexpected address.
pub proof fn lemma_expected_completions_report_nothing(in_flight: Set<usize>, addrs: Seq<usize>)
    requires
        addrs.no_duplicates(),
        forall|a: usize| addrs.contains(a) ==> in_flight.contains(a),
    ensures
        unexpected(in_flight, addrs) == Seq::<usize>::empty(),
    decreases addrs.len(),
{
    if addrs.len() > 0 {
        let prefix = addrs.drop_last();
        assert forall|a: usize| prefix.contains(a) implies in_flight.contains(a) by {
            let k = choose|k: int| 0 <= k < prefix.len() && prefix[k] == a;
            assert(addrs[k] == a);
        }
        lemma_expected_completions_report_nothing(in_flight, prefix);
        assert(addrs.contains(addrs.last()));
        if prefix.contains(addrs.last()) {
            let k = choose|k: int| 0 <= k < prefix.len() && prefix[k] == addrs.last();
            assert(addrs[k] == addrs[addrs.len() - 1]);
        }
    }
}

/// Frames with distinct addresses, none in flight, that are sent and then
/// completed leave in flight exactly what was there before, and neither step
/// reports an address.
pub proof fn lemma_send_then_complete(in_flight: Set<usize>, frames: Seq<FrameDesc>)
    requires
        addrs_of(frames).no_duplicates(),
        forall|a: usize| addrs_of(frames).contains(a) ==> !in_flight.contains(a),
    ensures
        resent(in_flight, addrs_of(frames)) == Seq::<usize>::empty(),
        unexpected(in_flight.union(addrs_of(frames).to_set()), addrs_of(frames)) == Seq::<
            usize,
        >::empty(),
        in_flight.union(addrs_of(frames).to_set()).difference(addrs_of(frames).to_set())
            == in_flight,
{
    let addrs = addrs_of(frames);
    lemma_fresh_sends_report_nothing(in_flight, addrs);
    lemma_expected_completions_report_nothing(in_flight.union(addrs.to_set()), addrs);
    assert(in_flight.union(addrs.to_set()).difference(addrs.to_set()) =~= in_flight);
}

/// Sending one frame reports its address exactly when it is in flight.
pub proof fn lemma_resent_one(in_flight: Set<usize>, a: usize)
    ensures
        in_flight.contains(a) ==> resent(in_flight, seq![a]) == seq![a],
        !in_flight.contains(a) ==> resent(in_flight, seq![a]) == Seq::<usize>::empty(),
{
    assert(seq![a].drop_last() =~= Seq::<usize>::empty());
    assert(Seq::<usize>::empty().to_set() =~= Set::<usize>::empty());
    assert(in_flight.union(Set::<usize>::empty()) =~= in_flight);
    assert(Seq::<usize>::empty().push(a) =~= seq![a]);
    assert(resent(in_flight, Seq::<usize>::empty()) == Seq::<usize>::empty());
    assert(resent(in_flight, seq![a].drop_last()) == Seq::<usize>::empty());
    assert(seq![a].last() == a);
}

/// Sending `first` and then `second` reports what sending them together
/// does: the second send reports against what is in flight after the first.
pub proof fn lemma_resent_concat(in_flight: Set<usize>, first: Seq<usize>, second: Seq<usize>)
    ensures
        resent(in_flight, first + second) == resent(in_flight, first) + resent(
            in_flight.union(first.to_set()),
            second,
        ),
    decreases second.len(),
{
    if second.len() == 0 {
        assert(first + second =~= first);
        assert(resent(in_flight, first) + Seq::<usize>::empty() =~= resent(in_flight, first));
    } else {
        let rest = second.drop_last();
        let x = second.last();
        lemma_resent_concat(in_flight, first, rest);
        assert((first + second).drop_last() =~= first + rest);
        assert((first + second).last() == x);
        vstd::seq_lib::seq_to_set_distributes_over_add(first, rest);
        assert(in_flight.union((first + rest).to_set()) =~= in_flight.union(first.to_set()).union(
            rest.to_set(),
        ));
        let p = resent(in_flight, first);
        let q = resent(in_flight.union(first.to_set()), rest);
        assert((p + q).push(x) =~= p + q.push(x));
    }
}

/// Every address sent while it is in flight, or sent again within the same
/// call, is reported.
pub proof fn lemma_resent_reports(in_flight: Set<usize>, addrs: Seq<usize>, i: int)
    requires
        0 <= i < addrs.len(),
        in_flight.contains(addrs[i]) || addrs.take(i).contains(addrs[i]),
    ensures
        resent(in_flight, addrs).contains(addrs[i]),
{
    let before = addrs.take(i);
    let rest = addrs.skip(i + 1);
    let x = addrs[i];
    assert(addrs =~= before + seq![x] + rest);
    lemma_resent_concat(in_flight, before + seq![x], rest);
    lemma_resent_concat(in_flight, before, seq![x]);
    let s1 = in_flight.union(before.to_set());
    assert(s1.contains(x));
    lemma_resent_one(s1, x);
    let r = resent(in_flight, before) + seq![x];
    assert(r[r.len() - 1] == x);
    let all = r + resent(in_flight.union((before + seq![x]).to_set()), rest);
    assert(all[r.len() - 1] == x);
}

/// Completing one frame reports its address exactly when it is not in flight.
pub proof fn lemma_unexpected_one(in_flight: Set<usize>, a: usize)
    ensures
        in_flight.contains(a) ==> unexpected(in_flight, seq![a]) == Seq::<usize>::empty(),
        !in_flight.contains(a) ==> unexpected(in_flight, seq![a]) == seq![a],
{
    assert(seq![a].drop_last() =~= Seq::<usize>::empty());
    assert(Seq::<usize>::empty().to_set() =~= Set::<usize>::empty());
    assert(in_flight.difference(Set::<usize>::empty()) =~= in_flight);
    assert(Seq::<usize>::empty().push(a) =~= seq![a]);
    assert(unexpected(in_flight, Seq::<usize>::empty()) == Seq::<usize>::empty());
    assert(unexpected(in_flight, seq![a].drop_last()) == Seq::<usize>::empty());
    assert(seq![a].last() == a);
}

/// Completing `first` and then `second` reports what completing them
/// together does: the second call reports against what is in flight after
/// the first.
pub proof fn lemma_unexpected_concat(in_flight: Set<usize>, first: Seq<usize>, second: Seq<usize>)
    ensures
        unexpected(in_flight, first + second) == unexpected(in_flight, first) + unexpected(
            in_flight.difference(first.to_set()),
            second,
        ),
    decreases second.len(),
{
    if second.len() == 0 {
        assert(first + second =~= first);
        assert(unexpected(in_flight, first) + Seq::<usize>::empty() =~= unexpected(
            in_flight,
            first,
        ));
    } else {
        let rest = second.drop_last();
        let x = second.last();
        lemma_unexpected_concat(in_flight, first, rest);
        assert((first + second).drop_last() =~= first + rest);
        assert((first + second).last() == x);
        vstd::seq_lib::seq_to_set_distributes_over_add(first, rest);
        assert(in_flight.difference((first + rest).to_set()) =~= in_flight.difference(
            first.to_set(),
        ).difference(rest.to_set()));
        let p = unexpected(in_flight, first);
        let q = unexpected(in_flight.difference(first.to_set()), rest);
        assert((p + q).push(x) =~= p + q.push(x));
    }
}

/// Every completed address that is not in flight at that point (never sent,
/// or completed already earlier in the same call) is reported.
pub proof fn lemma_unexpected_reports(in_flight: Set<usize>, addrs: Seq<usize>, i: int)
    requires
        0 <= i < addrs.len(),
        !in_flight.contains(addrs[i]) || addrs.take(i).contains(addrs[i]),
    ensures
        unexpected(in_flight, addrs).contains(addrs[i]),
{
    let before = addrs.take(i);
    let rest = addrs.skip(i + 1);
    let x = addrs[i];
    assert(addrs =~= before + seq![x] + rest);
    lemma_unexpected_concat(in_flight, before + seq![x], rest);
    lemma_unexpected_concat(in_flight, before, seq![x]);
    let s1 = in_flight.difference(before.to_set());
    assert(!s1.contains(x));
    lemma_unexpected_one(s1, x);
    let r = unexpected(in_flight, before) + seq![x];
    assert(r[r.len() - 1] == x);
    let all = r + unexpected(in_flight.difference((before + seq![x]).to_set()), rest);
    assert(all[r.len() - 1] == x);
}

} // verus!
