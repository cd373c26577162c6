//! Page frames: fixed-size byte buffers with an administrative handle count and a
//! live reference count. Frames live in an arena (`Frames`); `Page`, `PageHandle`
//! and `PageRef` are tokens that name a frame by its `PageId`.
use vstd::prelude::*;

use crate::strategy::{same_members, ReplacementStrategy};

verus! {

/// Identifies one frame for its lifetime: the index of its slot in the arena.
#[derive(Clone, Copy, Debug, PartialEq, Eq, Hash, Structural)]
pub struct PageId(pub usize);

/// One frame. A valid frame counts one for itself plus one for each live
/// reference, so `ref_count` is zero exactly when the frame is invalidated.
pub struct Frame {
    pub handle_count: usize,
    pub ref_count: usize,
    pub payload: Option<Vec<u8>>,
}

impl Frame {
    /// The count is zero exactly when the payload is gone, and a payload is one page long.
    pub open spec fn wf(&self, page_size: nat) -> bool {
        &&& (self.ref_count == 0 <==> self.payload is None)
        &&& (self.payload is Some ==> self.payload->0@.len() == page_size)
    }

    /// The frame holds its payload and at least one reference besides its own mark.
    pub open spec fn is_pinned(&self) -> bool {
        self.ref_count >= 2
    }

    /// Invalidation would succeed: the frame is valid and no reference is live.
    pub open spec fn is_evictable(&self) -> bool {
        self.ref_count == 1
    }
}

/// The arena of all frames; every payload is one page long.
pub struct Frames {
    pub slots: Vec<Frame>,
    pub page_size: usize,
}

/// The administrative owner of a frame, kept by a page manager's pool.
pub struct Page {
    pub id: PageId,
}

/// A weak administrative reference: it can be pinned back into a `PageRef`
/// while the frame is valid.
pub struct PageHandle {
    pub id: PageId,
}

/// A live reference that keeps the payload of its frame.
pub struct PageRef {
    pub id: PageId,
}

/// A handle tried to pin a frame whose payload was reclaimed.
#[derive(Debug, PartialEq, Eq, Structural)]
pub struct PageInvalidated;

/// Why `Page::try_invalidate` refused.
#[derive(Debug, PartialEq, Eq, Structural)]
pub enum PageCannotBeInvalidated {
    StillPinned,
    AlreadyInvalidated,
}

impl Frames {
    pub open spec fn wf(&self) -> bool {
        &&& self.page_size > 0
        &&& forall|i: int| 0 <= i < self.slots@.len() ==> #[trigger] self.slots@[i].wf(self.page_size as nat)
    }

    pub open spec fn len(&self) -> nat {
        self.slots@.len()
    }

    pub open spec fn contains(&self, id: PageId) -> bool {
        id.0 < self.slots@.len()
    }

    pub open spec fn frame(&self, id: PageId) -> Frame {
        self.slots@[id.0 as int]
    }

    pub open spec fn pinned(&self, id: PageId) -> bool {
        self.contains(id) && self.frame(id).is_pinned()
    }

    pub open spec fn evictable(&self, id: PageId) -> bool {
        self.contains(id) && self.frame(id).is_evictable()
    }

    /// The bytes of a valid frame.
    pub open spec fn bytes(&self, id: PageId) -> Seq<u8> {
        self.frame(id).payload->0@
    }

    /// The arena after only the frame `id` changed to `f`.
    pub open spec fn with_frame(&self, id: PageId, f: Frame) -> Seq<Frame> {
        self.slots@.update(id.0 as int, f)
    }

    /// The arena after the frame `id` lost its payload.
    pub open spec fn invalidated(&self, id: PageId) -> Seq<Frame> {
        self.with_frame(
            id,
            Frame { handle_count: self.frame(id).handle_count, ref_count: 0, payload: None },
        )
    }

    /// An empty arena for frames of `page_size` bytes.
    pub fn new(page_size: usize) -> (r: Frames)
        requires
            page_size > 0,
        ensures
            r.wf(),
            r.page_size == page_size,
            r.slots@.len() == 0,
    {
        Frames { slots: Vec::new(), page_size }
    }

    /// Whether the frame `id` would be invalidated now; invalidates it if so.
    /// The reclaimed buffer is returned.
    pub fn reclaim(&mut self, id: PageId) -> (r: Option<Vec<u8>>)
        requires
            old(self).wf(),
            old(self).contains(id),
        ensures
            final(self).wf(),
            final(self).page_size == old(self).page_size,
            r is Some <==> old(self).evictable(id),
            r is Some ==> r->0@ == old(self).bytes(id) && final(self).slots@ == old(self).invalidated(id),
            r is None ==> final(self).slots@ == old(self).slots@,
    {
        let page = Page { id };
        match page.try_invalidate(self) {
            Ok(buf) => Some(buf),
            Err(_) => None,
        }
    }
}

impl Page {
    /// Makes a new frame of zeroed bytes.
    pub fn allocate_with_size(frames: &mut Frames) -> (r: (Page, PageHandle, PageRef))
        requires
            old(frames).wf(),
            old(frames).slots@.len() < usize::MAX,
        ensures
            final(frames).wf(),
            final(frames).page_size == old(frames).page_size,
            r.0.id == PageId(old(frames).slots@.len() as usize),
            r.1.id == r.0.id,
            r.2.id == r.0.id,
            final(frames).slots@.len() == old(frames).slots@.len() + 1,
            final(frames).slots@.subrange(0, old(frames).slots@.len() as int) == old(frames).slots@,
            final(frames).frame(r.0.id).handle_count == 2,
            final(frames).frame(r.0.id).ref_count == 2,
            final(frames).bytes(r.0.id) == Seq::new(old(frames).page_size as nat, |i: int| 0u8),
    {
        let contents: Vec<u8> = vec![0u8; frames.page_size];
        assert(contents@ == Seq::new(frames.page_size as nat, |i: int| 0u8));
        Page::allocate(frames, contents)
    }

    /// Makes a new frame over `contents`: its page, one handle and one reference.
    pub fn allocate(frames: &mut Frames, contents: Vec<u8>) -> (r: (Page, PageHandle, PageRef))
        requires
            old(frames).wf(),
            old(frames).slots@.len() < usize::MAX,
            contents@.len() == old(frames).page_size,
        ensures
            final(frames).wf(),
            final(frames).page_size == old(frames).page_size,
            r.0.id == PageId(old(frames).slots@.len() as usize),
            r.1.id == r.0.id,
            r.2.id == r.0.id,
            final(frames).slots@ == old(frames).slots@.push(
                Frame { handle_count: 2, ref_count: 2, payload: Some(contents) },
            ),
    {
        let id = PageId(frames.slots.len());
        frames.slots.push(Frame { handle_count: 2, ref_count: 2, payload: Some(contents) });
        (Page { id }, PageHandle { id }, PageRef { id })
    }

    /// Takes the payload of a frame that no reference pins.
    pub fn try_invalidate(&self, frames: &mut Frames) -> (r: Result<Vec<u8>, PageCannotBeInvalidated>)
        requires
            old(frames).wf(),
            old(frames).contains(self.id),
        ensures
            final(frames).wf(),
            final(frames).page_size == old(frames).page_size,
            old(frames).frame(self.id).ref_count == 0 ==> r == Err::<Vec<u8>, _>(
                PageCannotBeInvalidated::AlreadyInvalidated,
            ),
            old(frames).frame(self.id).ref_count > 1 ==> r == Err::<Vec<u8>, _>(
                PageCannotBeInvalidated::StillPinned,
            ),
            r is Err ==> final(frames).slots@ == old(frames).slots@,
            r is Ok <==> old(frames).evictable(self.id),
            r is Ok ==> r->Ok_0@ == old(frames).bytes(self.id) && final(frames).slots@ == old(
                frames,
            ).invalidated(self.id),
    {
        let i = self.id.0;
        let count = frames.slots[i].ref_count;
        if count == 0 {
            return Err(PageCannotBeInvalidated::AlreadyInvalidated);
        }
        if count > 1 {
            return Err(PageCannotBeInvalidated::StillPinned);
        }
        let handle_count = frames.slots[i].handle_count;
        assert(old(frames).slots@[i as int].wf(old(frames).page_size as nat));
        let old_frame = frames.slots.remove(i);
        assert(old_frame == old(frames).slots@[i as int]);
        frames.slots.insert(i, Frame { handle_count, ref_count: 0, payload: None });
        assert(frames.slots@ =~= old(frames).with_frame(
            self.id,
            Frame { handle_count, ref_count: 0, payload: None },
        ));
        match old_frame.payload {
            Some(buf) => Ok(buf),
            None => Err(PageCannotBeInvalidated::AlreadyInvalidated),
        }
    }
}

/// In a well-formed arena a frame's reference count is zero exactly when its
/// payload is gone.
pub proof fn lemma_count_zero_iff_no_payload(frames: Frames, id: PageId)
    requires
        frames.wf(),
        frames.contains(id),
    ensures
        frames.frame(id).ref_count == 0 <==> frames.frame(id).payload is None,
{
    assert(frames.slots@[id.0 as int].wf(frames.page_size as nat));
}

impl Page {
    /// Gives up the page's administrative ownership of its frame. The last owner
    /// may only go once the frame is invalidated.
    pub fn release(self, frames: &mut Frames)
        requires
            old(frames).wf(),
            old(frames).contains(self.id),
            old(frames).frame(self.id).handle_count >= 1,
            old(frames).frame(self.id).handle_count == 1 ==> old(frames).frame(self.id).ref_count == 0,
        ensures
            final(frames).wf(),
            final(frames).page_size == old(frames).page_size,
            final(frames).slots@ == old(frames).with_handles(
                self.id,
                (old(frames).frame(self.id).handle_count - 1) as usize,
            ),
    {
        frames.drop_owner(self.id);
    }
}

impl Frames {
    /// The arena after the frame `id` got `n` as its handle count.
    pub open spec fn with_handles(&self, id: PageId, n: usize) -> Seq<Frame> {
        self.with_frame(
            id,
            Frame { handle_count: n, ref_count: self.frame(id).ref_count, payload: self.frame(id).payload },
        )
    }

    /// The arena after the frame `id` got `n` as its reference count.
    pub open spec fn with_refs(&self, id: PageId, n: usize) -> Seq<Frame> {
        self.with_frame(
            id,
            Frame { handle_count: self.frame(id).handle_count, ref_count: n, payload: self.frame(id).payload },
        )
    }

    fn drop_owner(&mut self, id: PageId)
        requires
            old(self).wf(),
            old(self).contains(id),
            old(self).frame(id).handle_count >= 1,
        ensures
            final(self).wf(),
            final(self).page_size == old(self).page_size,
            final(self).slots@ == old(self).with_handles(id, (old(self).frame(id).handle_count - 1) as usize),
    {
        let i = id.0;
        assert(self.slots@[i as int].wf(self.page_size as nat));
        self.slots[i].handle_count = self.slots[i].handle_count - 1;
        assert(self.slots@ =~= old(self).with_handles(id, (old(self).frame(id).handle_count - 1) as usize));
    }

    /// Replaces the bytes of a valid frame; no strategy learns of it.
    pub fn fill(&mut self, id: PageId, contents: Vec<u8>)
        requires
            old(self).wf(),
            old(self).contains(id),
            old(self).frame(id).ref_count >= 1,
            contents@.len() == old(self).page_size,
        ensures
            final(self).wf(),
            final(self).page_size == old(self).page_size,
            final(self).slots@ == old(self).with_frame(
                id,
                Frame {
                    handle_count: old(self).frame(id).handle_count,
                    ref_count: old(self).frame(id).ref_count,
                    payload: Some(contents),
                },
            ),
    {
        let i = id.0;
        let ghost f = Frame {
            handle_count: self.slots@[i as int].handle_count,
            ref_count: self.slots@[i as int].ref_count,
            payload: Some(contents),
        };
        self.slots[i].payload = Some(contents);
        assert(self.slots@ =~= old(self).with_frame(id, f));
    }

    fn set_refs(&mut self, id: PageId, n: usize)
        requires
            old(self).wf(),
            old(self).contains(id),
            old(self).frame(id).ref_count > 0,
            n > 0,
        ensures
            final(self).wf(),
            final(self).page_size == old(self).page_size,
            final(self).slots@ == old(self).with_refs(id, n),
    {
        let i = id.0;
        assert(self.slots@[i as int].wf(self.page_size as nat));
        self.slots[i].ref_count = n;
        assert(self.slots@ =~= old(self).with_refs(id, n));
    }
}

impl PageHandle {
    /// A new reference to the frame, unless its payload was reclaimed.
    pub fn pin(&self, frames: &mut Frames) -> (r: Result<PageRef, PageInvalidated>)
        requires
            old(frames).wf(),
            old(frames).contains(self.id),
            old(frames).frame(self.id).ref_count < usize::MAX,
        ensures
            final(frames).wf(),
            final(frames).page_size == old(frames).page_size,
            r is Err <==> old(frames).frame(self.id).ref_count == 0,
            r is Err ==> final(frames).slots@ == old(frames).slots@,
            r is Ok ==> r->Ok_0.id == self.id && final(frames).slots@ == old(frames).with_refs(
                self.id,
                (old(frames).frame(self.id).ref_count + 1) as usize,
            ),
    {
        let count = frames.slots[self.id.0].ref_count;
        if count == 0 {
            return Err(PageInvalidated);
        }
        frames.set_refs(self.id, count + 1);
        Ok(PageRef { id: self.id })
    }

    /// Gives up this handle. The last administrative owner may only go once the
    /// frame is invalidated.
    pub fn release(self, frames: &mut Frames)
        requires
            old(frames).wf(),
            old(frames).contains(self.id),
            old(frames).frame(self.id).handle_count >= 1,
            old(frames).frame(self.id).handle_count == 1 ==> old(frames).frame(self.id).ref_count == 0,
        ensures
            final(frames).wf(),
            final(frames).page_size == old(frames).page_size,
            final(frames).slots@ == old(frames).with_handles(
                self.id,
                (old(frames).frame(self.id).handle_count - 1) as usize,
            ),
    {
        frames.drop_owner(self.id);
    }
}

impl PageRef {
    /// The bytes of the frame; the strategy learns of the access.
    pub fn read<'a, R: ReplacementStrategy>(&self, frames: &'a Frames, strat: &mut R) -> (r: &'a [u8])
        requires
            frames.wf(),
            frames.pinned(self.id),
            old(strat).wf(),
        ensures
            r@ == frames.bytes(self.id),
            final(strat).wf(),
            final(strat).candidates() == old(strat).accessed(self.id),
            same_members(old(strat).candidates(), final(strat).candidates()),
    {
        strat.read(self.id);
        let i = self.id.0;
        assert(frames.slots@[i as int].wf(frames.page_size as nat));
        match &frames.slots[i].payload {
            Some(b) => b.as_slice(),
            None => {
                assert(false);
                &[]
            },
        }
    }

    /// Replaces the bytes of the frame; the strategy learns of the access.
    pub fn write<R: ReplacementStrategy>(&self, frames: &mut Frames, strat: &mut R, contents: Vec<u8>)
        requires
            old(frames).wf(),
            old(frames).pinned(self.id),
            contents@.len() == old(frames).page_size,
            old(strat).wf(),
        ensures
            final(frames).wf(),
            final(frames).page_size == old(frames).page_size,
            final(frames).slots@ == old(frames).with_frame(
                self.id,
                Frame {
                    handle_count: old(frames).frame(self.id).handle_count,
                    ref_count: old(frames).frame(self.id).ref_count,
                    payload: Some(contents),
                },
            ),
            final(strat).wf(),
            final(strat).candidates() == old(strat).accessed(self.id),
            same_members(old(strat).candidates(), final(strat).candidates()),
    {
        strat.write(self.id);
        frames.fill(self.id, contents);
    }

    /// Another reference to the same frame.
    pub fn clone_ref(&self, frames: &mut Frames) -> (r: PageRef)
        requires
            old(frames).wf(),
            old(frames).pinned(self.id),
            old(frames).frame(self.id).ref_count < usize::MAX,
        ensures
            r.id == self.id,
            final(frames).wf(),
            final(frames).page_size == old(frames).page_size,
            final(frames).slots@ == old(frames).with_refs(
                self.id,
                (old(frames).frame(self.id).ref_count + 1) as usize,
            ),
    {
        let count = frames.slots[self.id.0].ref_count;
        frames.set_refs(self.id, count + 1);
        PageRef { id: self.id }
    }

    /// Gives up this reference.
    pub fn release(self, frames: &mut Frames)
        requires
            old(frames).wf(),
            old(frames).pinned(self.id),
        ensures
            final(frames).wf(),
            final(frames).page_size == old(frames).page_size,
            final(frames).slots@ == old(frames).with_refs(
                self.id,
                (old(frames).frame(self.id).ref_count - 1) as usize,
            ),
    {
        let count = frames.slots[self.id.0].ref_count;
        frames.set_refs(self.id, count - 1);
    }
}

} // verus!
