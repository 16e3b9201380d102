//! Splitting runs of frame descriptors into bounded groups, and the small
//! inline vectors that carry one group of descriptors in a message.
use vstd::prelude::*;
use itertools::Itertools;
use smallvec::SmallVec;
use crate::desc::FrameDesc;
use crate::runner::poller::BATCH_SIZSE;

verus! {

/// `s` cut, front to back, into consecutive groups of `n` elements; the last
/// group holds what is left and may be shorter. An empty `s` gives no group.
pub open spec fn chunks_of<T>(s: Seq<T>, n: nat) -> Seq<Seq<T>>
    decreases s.len(),
{
    if s.len() == 0 || n == 0 {
        Seq::empty()
    } else if s.len() <= n {
        seq![s]
    } else {
        seq![s.take(n as int)] + chunks_of(s.skip(n as int), n)
    }
}

/// The views of a sequence of vectors.
pub open spec fn views_of(v: Seq<Vec<FrameDesc>>) -> Seq<Seq<FrameDesc>> {
    v.map_values(|c: Vec<FrameDesc>| c@)
}

/// Gluing the groups back together gives `s` back.
pub proof fn lemma_chunks_flatten<T>(s: Seq<T>, n: nat)
    requires
        n > 0,
    ensures
        chunks_of(s, n).flatten() == s,
    decreases s.len(),
{
    if s.len() == 0 {
    } else if s.len() <= n {
        chunks_of(s, n).lemma_flatten_one_element();
    } else {
        lemma_chunks_flatten(s.skip(n as int), n);
        let c = chunks_of(s, n);
        assert(c.first() == s.take(n as int));
        assert(c.drop_first() =~= chunks_of(s.skip(n as int), n));
        assert(s.take(n as int) + s.skip(n as int) =~= s);
    }
}

/// Every group holds between one and `n` elements, and every group but the
/// last holds exactly `n`.
pub proof fn lemma_chunks_sizes<T>(s: Seq<T>, n: nat)
    requires
        n > 0,
    ensures
        forall|i: int|
            0 <= i < chunks_of(s, n).len() ==> 0 < #[trigger] chunks_of(s, n)[i].len() <= n,
        forall|i: int|
            0 <= i < chunks_of(s, n).len() - 1 ==> #[trigger] chunks_of(s, n)[i].len() == n,
        s.len() == 0 <==> chunks_of(s, n).len() == 0,
    decreases s.len(),
{
    if s.len() == 0 {
    } else if s.len() <= n {
    } else {
        lemma_chunks_sizes(s.skip(n as int), n);
        let c = chunks_of(s, n);
        let r = chunks_of(s.skip(n as int), n);
        assert forall|i: int| 0 <= i < c.len() implies 0 < #[trigger] c[i].len() <= n by {
            if i > 0 {
                assert(c[i] == r[i - 1]);
            }
        }
        assert forall|i: int| 0 <= i < c.len() - 1 implies #[trigger] c[i].len() == n by {
            if i > 0 {
                assert(c[i] == r[i - 1]);
            }
        }
    }
}

/// Cuts `frames` into consecutive groups of `size` descriptors, the last one
/// possibly shorter, with `Itertools::chunks`.
///
/// Trusted: `Itertools::chunks` yields, in order, groups of `size` elements of
/// the iterator, the last group holding what is left; it panics on a size of
/// zero, which `requires` leaves out.
#[verifier::external_body]
pub(crate) fn chunk_frames(frames: Vec<FrameDesc>, size: usize) -> (chunks: Vec<Vec<FrameDesc>>)
    requires
        size > 0,
    ensures
        views_of(chunks@) == chunks_of(frames@, size as nat),
{
    frames.into_iter().chunks(size).into_iter().map(|chunk| chunk.collect()).collect()
}

/// A group of at most a few descriptors, held inline in a `smallvec::SmallVec`.
#[verifier::external_body]
pub struct FrameBatch {
    inner: SmallVec<[FrameDesc; BATCH_SIZSE]>,
}

/// The descriptors that a batch holds, in order.
pub uninterp spec fn batch_frames(batch: FrameBatch) -> Seq<FrameDesc>;

/// An empty batch, made by `SmallVec::new`.
///
/// Trusted: `SmallVec::new` returns a vector that holds nothing.
#[verifier::external_body]
fn batch_new() -> (batch: FrameBatch)
    ensures
        batch_frames(batch) == Seq::<FrameDesc>::empty(),
{
    FrameBatch { inner: SmallVec::new() }
}

/// Appends `desc` to `batch` with `SmallVec::push`.
///
/// Trusted: `SmallVec::push` appends its argument at the end and keeps the
/// rest. When it must grow, it asks for room for the next power of two above
/// the length, and panics with "capacity overflow" when that many descriptors
/// (at most 32 bytes each) would not fit in `isize::MAX` bytes; `requires` keeps the
/// length far enough below that. It says nothing of running out of memory.
#[verifier::external_body]
fn batch_push(batch: &mut FrameBatch, desc: FrameDesc)
    requires
        batch_frames(*old(batch)).len() + 1 <= isize::MAX / 64,
    ensures
        batch_frames(*final(batch)) == batch_frames(*old(batch)).push(desc),
{
    batch.inner.push(desc)
}

/// The descriptors of `batch` as a slice, by `SmallVec::as_slice`.
///
/// Trusted: `SmallVec::as_slice` returns the elements of the vector in order.
#[verifier::external_body]
fn batch_as_slice(batch: &FrameBatch) -> (s: &[FrameDesc])
    ensures
        s@ == batch_frames(*batch),
{
    batch.inner.as_slice()
}

impl FrameBatch {
    /// The descriptors of the batch, in order.
    pub open spec fn frames(self) -> Seq<FrameDesc> {
        batch_frames(self)
    }

    /// An empty batch.
    pub fn new() -> (batch: FrameBatch)
        ensures
            batch.frames() == Seq::<FrameDesc>::empty(),
    {
        batch_new()
    }

    /// Appends `desc` at the end of the batch.
    pub fn push(&mut self, desc: FrameDesc)
        requires
            old(self).frames().len() + 1 <= isize::MAX / 64,
        ensures
            final(self).frames() == old(self).frames().push(desc),
    {
        batch_push(self, desc)
    }

    /// The descriptors of the batch, in order.
    pub fn as_slice(&self) -> (s: &[FrameDesc])
        ensures
            s@ == self.frames(),
    {
        batch_as_slice(self)
    }

    /// The number of descriptors in the batch.
    pub fn len(&self) -> (n: usize)
        ensures
            n == self.frames().len(),
    {
        batch_as_slice(self).len()
    }

    /// A batch holding the descriptors of `descs`, in order.
    pub fn from_slice(descs: &[FrameDesc]) -> (batch: FrameBatch)
        requires
            descs@.len() <= isize::MAX / 64,
        ensures
            batch.frames() == descs@,
    {
        let mut batch = batch_new();
        let mut i: usize = 0;
        while i < descs.len()
            invariant
                i <= descs@.len(),
                descs@.len() <= isize::MAX / 64,
                batch_frames(batch) == descs@.take(i as int),
            decreases descs@.len() - i,
        {
            batch_push(&mut batch, descs[i]);
            assert(descs@.take(i as int).push(descs@[i as int]) =~= descs@.take(i + 1));
            i = i + 1;
        }
        assert(descs@.take(descs@.len() as int) =~= descs@);
        batch
    }
}

} // verus!
