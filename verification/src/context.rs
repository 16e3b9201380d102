//! The pieces of an XDP context that decide: how its UMEM is set up, which
//! handles it gives out, and how packets travel in messages.
use vstd::prelude::*;
use crate::batch::{chunks_of, views_of, FrameBatch};
use crate::desc::FrameDesc;
use crate::error::XdpError;
use crate::runner::poller::{XdpReceiveMsg, XdpSendMsg, BATCH_SIZSE};

verus! {

/// The number of frames of the UMEM that a context creates when it is given
/// no UMEM configuration: sixteen slabs of 4096 frames.
pub const DEFAULT_FRAME_COUNT: u32 = 65536;

/// How the context will get its UMEM.
pub enum UmemConfigState<UC, MC, U, M> {
    /// Nothing chosen yet: a UMEM with the default configuration.
    Init,
    /// A new UMEM with this configuration, managed by a manager with this one.
    Config { umem_config: UC, manager_config: MC, frame_count: u32 },
    /// An existing UMEM and its frame manager, shared with other contexts.
    Umem { umem: U, frame_manager: M },
}

/// XdpContextBuilder is used to build the XdpContext.
///
/// `S` is the socket configuration, `UC` the UMEM configuration, `MC` the
/// frame manager configuration, `U` the UMEM and `M` the frame manager.
pub struct XdpContextBuilder<S, UC, MC, U, M> {
    config: S,
    if_name: String,
    queue_id: u32,
    umem_state: UmemConfigState<UC, MC, U, M>,
    use_huge_pages: bool,
}

impl<S, UC, MC, U, M> XdpContextBuilder<S, UC, MC, U, M> {
    /// The socket configuration.
    pub closed spec fn socket_config(self) -> S {
        self.config
    }

    /// The name of the interface.
    pub closed spec fn interface(self) -> Seq<char> {
        self.if_name@
    }

    /// The queue of the interface.
    pub closed spec fn queue(self) -> u32 {
        self.queue_id
    }

    /// How the UMEM will be had.
    pub closed spec fn umem_setup(self) -> UmemConfigState<UC, MC, U, M> {
        self.umem_state
    }

    /// Whether the UMEM goes in huge pages.
    pub closed spec fn huge_pages(self) -> bool {
        self.use_huge_pages
    }

    /// Create a new builder for the queue `queue_id` of the interface
    /// `if_name`, with the socket configuration `config`.
    pub fn new(if_name: &str, queue_id: u32, config: S) -> (b: Self)
        ensures
            b.socket_config() == config,
            b.interface() == if_name@,
            b.queue() == queue_id,
            b.umem_setup() is Init,
            !b.huge_pages(),
    {
        Self {
            config,
            if_name: if_name.to_owned(),
            queue_id,
            umem_state: UmemConfigState::Init,
            use_huge_pages: false,
        }
    }

    /// Set the socket config.
    pub fn with_socket_config(&mut self, config: S)
        ensures
            final(self).socket_config() == config,
            final(self).interface() == old(self).interface(),
            final(self).queue() == old(self).queue(),
            final(self).umem_setup() == old(self).umem_setup(),
            final(self).huge_pages() == old(self).huge_pages(),
    {
        self.config = config;
    }

    /// Whether the UMEM was configured already.
    pub fn umem_configured(&self) -> (b: bool)
        ensures
            b == !(self.umem_setup() is Init),
    {
        match self.umem_state {
            UmemConfigState::Init => false,
            _ => true,
        }
    }

    /// Set the umem config. The xdp context will create a new umem using the
    /// config. The UMEM can be configured only once.
    pub fn with_umem_config(&mut self, config: UC, manager_config: MC, frame_count: u32)
        requires
            old(self).umem_setup() is Init,
        ensures
            final(self).umem_setup() == (UmemConfigState::Config::<UC, MC, U, M> {
                umem_config: config,
                manager_config: manager_config,
                frame_count: frame_count,
            }),
            final(self).socket_config() == old(self).socket_config(),
            final(self).interface() == old(self).interface(),
            final(self).queue() == old(self).queue(),
            final(self).huge_pages() == old(self).huge_pages(),
    {
        self.umem_state = UmemConfigState::Config { umem_config: config, manager_config, frame_count };
    }

    /// Set the umem a exist umem. The xdp context will use the exist umem. Used
    /// to share the umem between different context. The UMEM can be configured
    /// only once.
    pub fn with_exist_umem(&mut self, umem: U, frame_manager: M)
        requires
            old(self).umem_setup() is Init,
        ensures
            final(self).umem_setup() == (UmemConfigState::Umem::<UC, MC, U, M> {
                umem: umem,
                frame_manager: frame_manager,
            }),
            final(self).socket_config() == old(self).socket_config(),
            final(self).interface() == old(self).interface(),
            final(self).queue() == old(self).queue(),
            final(self).huge_pages() == old(self).huge_pages(),
    {
        self.umem_state = UmemConfigState::Umem { umem, frame_manager };
    }

    /// Set the use huge pages.
    pub fn with_use_huge_pages(&mut self, use_huge_pages: bool)
        ensures
            final(self).huge_pages() == use_huge_pages,
            final(self).socket_config() == old(self).socket_config(),
            final(self).interface() == old(self).interface(),
            final(self).queue() == old(self).queue(),
            final(self).umem_setup() == old(self).umem_setup(),
    {
        self.use_huge_pages = use_huge_pages;
    }

    /// The builder's settings, to build the context from.
    pub fn into_parts(self) -> (parts: (S, String, u32, UmemConfigState<UC, MC, U, M>, bool))
        ensures
            parts.0 == self.socket_config(),
            parts.1@ == self.interface(),
            parts.2 == self.queue(),
            parts.3 == self.umem_setup(),
            parts.4 == self.huge_pages(),
    {
        (self.config, self.if_name, self.queue_id, self.umem_state, self.use_huge_pages)
    }
}

/// The number of frames of the UMEM that a context creates, when it creates
/// one: the configured number, or the default one.
pub fn frame_count_for<UC, MC, U, M>(state: &UmemConfigState<UC, MC, U, M>) -> (n: Option<u32>)
    ensures
        n == match *state {
            UmemConfigState::Init => Some(DEFAULT_FRAME_COUNT),
            UmemConfigState::Config { frame_count, .. } => Some(frame_count),
            UmemConfigState::Umem { .. } => None::<u32>,
        },
{
    match state {
        UmemConfigState::Init => Some(DEFAULT_FRAME_COUNT),
        UmemConfigState::Config { frame_count, .. } => Some(*frame_count),
        UmemConfigState::Umem { .. } => None,
    }
}

/// The channel ends that a context holds: the receiving end, until the one
/// receive handle takes it, and the sending end, shared by the send handles.
pub struct XdpContextInner<R, S> {
    receive: Option<R>,
    send: S,
}

impl<R, S> XdpContextInner<R, S> {
    /// The receiving end, while no receive handle took it.
    pub closed spec fn receiver(self) -> Option<R> {
        self.receive
    }

    /// The sending end.
    pub closed spec fn sender_end(self) -> S {
        self.send
    }

    /// A context that holds both ends.
    pub fn new(receive: R, send: S) -> (c: Self)
        ensures
            c.receiver() == Some(receive),
            c.sender_end() == send,
    {
        Self { receive: Some(receive), send }
    }

    /// Take the receiving end; it can be taken only once.
    pub fn take_receiver(&mut self) -> (r: Option<R>)
        ensures
            r == old(self).receiver(),
            final(self).receiver() is None,
            final(self).sender_end() == old(self).sender_end(),
    {
        self.receive.take()
    }

    /// The receiving end for a new receive handle, or an error when a receive
    /// handle was created already.
    pub fn receive_handle(&mut self) -> (r: Result<R, XdpError>)
        ensures
            old(self).receiver() matches Some(rx) ==> r == Ok::<R, XdpError>(rx),
            old(self).receiver() is None ==> r == Err::<R, XdpError>(XdpError::ReceiveHandleTaken),
            final(self).receiver() is None,
            final(self).sender_end() == old(self).sender_end(),
    {
        match self.take_receiver() {
            Some(rx) => Ok(rx),
            None => Err(XdpError::ReceiveHandleTaken),
        }
    }

    /// The sending end.
    pub fn sender(&self) -> (s: &S)
        ensures
            *s == self.sender_end(),
    {
        &self.send
    }
}

/// `frames` cut into consecutive batches of `BATCH_SIZSE` descriptors, the
/// last one possibly shorter.
pub fn split_batches(frames: &[FrameDesc]) -> (out: Vec<Vec<FrameDesc>>)
    ensures
        views_of(out@) == chunks_of(frames@, BATCH_SIZSE as nat),
{
    let n = BATCH_SIZSE;
    let mut out: Vec<Vec<FrameDesc>> = Vec::new();
    let mut pos: usize = 0;
    assert(frames@.skip(0) =~= frames@);
    assert(views_of(out@) + chunks_of(frames@.skip(0), n as nat) =~= chunks_of(frames@, n as nat));
    while pos < frames.len()
        invariant
            pos <= frames@.len(),
            n == BATCH_SIZSE,
            views_of(out@) + chunks_of(frames@.skip(pos as int), n as nat) == chunks_of(
                frames@,
                n as nat,
            ),
        decreases frames@.len() - pos,
    {
        let end = if frames.len() - pos <= n {
            frames.len()
        } else {
            pos + n
        };
        let chunk = vstd::slice::slice_to_vec(&frames[pos..end]);
        let ghost rest = frames@.skip(pos as int);
        let ghost before = out@;
        proof {
            assert(chunk@ =~= frames@.subrange(pos as int, end as int));
            if rest.len() <= n {
                assert(chunk@ =~= rest);
                assert(frames@.skip(end as int) =~= Seq::<FrameDesc>::empty());
                assert(chunks_of(rest, n as nat) == seq![rest]);
            } else {
                assert(chunk@ =~= rest.take(n as int));
                assert(rest.skip(n as int) =~= frames@.skip(end as int));
                assert(chunks_of(rest, n as nat) == seq![rest.take(n as int)] + chunks_of(
                    rest.skip(n as int),
                    n as nat,
                ));
            }
        }
        out.push(chunk);
        proof {
            assert(views_of(out@) =~= views_of(before).push(chunk@));
            assert(views_of(out@) + chunks_of(frames@.skip(end as int), n as nat) =~= views_of(
                before,
            ) + chunks_of(rest, n as nat));
        }
        pos = end;
    }
    proof {
        assert(frames@.skip(pos as int) =~= Seq::<FrameDesc>::empty());
        assert(views_of(out@) + Seq::<Seq<FrameDesc>>::empty() =~= views_of(out@));
    }
    out
}

/// The messages that ask the poller to send the packets in `data`: one per
/// batch of `BATCH_SIZSE` frames, in order.
pub fn send_frame_msgs(data: &FrameBatch) -> (msgs: Vec<XdpSendMsg>)
    ensures
        msgs.len() == chunks_of(data.frames(), BATCH_SIZSE as nat).len(),
        forall|i: int|
            0 <= i < msgs.len() ==> (#[trigger] msgs[i] matches XdpSendMsg::SendFrame { elements }
                && elements@ == chunks_of(data.frames(), BATCH_SIZSE as nat)[i]),
{
    let batches = split_batches(data.as_slice());
    let ghost cs = chunks_of(data.frames(), BATCH_SIZSE as nat);
    let mut batches = batches;
    let mut msgs: Vec<XdpSendMsg> = Vec::new();
    let ghost mut j: int = 0;
    while batches.len() > 0
        invariant
            0 <= j <= cs.len(),
            views_of(batches@) == cs.skip(j),
            msgs.len() == j,
            forall|k: int|
                0 <= k < j ==> (#[trigger] msgs[k] matches XdpSendMsg::SendFrame { elements }
                    && elements@ == cs[k]),
        decreases batches@.len(),
    {
        let ghost before = batches@;
        let elements = batches.remove(0);
        proof {
            assert(views_of(before)[0] == before[0]@);
            assert(views_of(before)[0] == cs.skip(j)[0]);
            assert(views_of(batches@) =~= views_of(before).drop_first());
        }
        msgs.push(XdpSendMsg::SendFrame { elements });
        proof {
            j = j + 1;
            assert(views_of(batches@) =~= cs.skip(j));
        }
    }
    msgs
}

/// What a receive handle gets from a message: the frames it carries, or an
/// error once the poller has hung up.
pub fn received(msg: Option<XdpReceiveMsg>) -> (r: Result<FrameBatch, XdpError>)
    ensures
        match msg {
            Some(XdpReceiveMsg::Recv(frames)) => r == Ok::<FrameBatch, XdpError>(frames),
            None => r == Err::<FrameBatch, XdpError>(XdpError::Closed),
        },
{
    match msg {
        Some(XdpReceiveMsg::Recv(frames)) => Ok(frames),
        None => Err(XdpError::Closed),
    }
}

} // verus!
