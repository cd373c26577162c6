//! The page manager without a bound: every allocation gets a fresh frame and no
//! page is ever evicted.
use vstd::prelude::*;

use crate::buffered::fresh_frame;
use crate::page::{Frames, Page, PageHandle, PageId, PageRef};
use crate::strategy::{NoOpReplacementStrategy, NoPages};

verus! {

/// Allocates on demand and never evicts; its strategy tracks nothing.
pub struct UnlimitedPageManager {
    pub frames: Frames,
    pub strat: NoOpReplacementStrategy,
}

impl UnlimitedPageManager {
    pub open spec fn wf(&self) -> bool {
        self.frames.wf()
    }

    pub fn new(page_size: usize) -> (r: Self)
        requires
            page_size > 0,
        ensures
            r.wf(),
            r.frames.page_size == page_size,
            r.frames.slots@.len() == 0,
    {
        UnlimitedPageManager { frames: Frames::new(page_size), strat: NoOpReplacementStrategy }
    }

    /// A fresh zeroed frame, every time. Its page is dropped at once, so nothing
    /// will ever try to invalidate it.
    pub fn allocate(&mut self) -> (r: Result<(PageHandle, PageRef), NoPages>)
        requires
            old(self).wf(),
            old(self).frames.slots@.len() < usize::MAX,
        ensures
            final(self).wf(),
            final(self).frames.page_size == old(self).frames.page_size,
            r is Ok,
            r is Ok ==> fresh_frame(old(self).frames, final(self).frames, r->Ok_0.0, r->Ok_0.1),
            final(self).frames.bytes(PageId(old(self).frames.slots@.len() as usize)) == Seq::new(
                old(self).frames.page_size as nat,
                |i: int| 0u8,
            ),
    {
        let (page, handle, page_ref) = Page::allocate_with_size(&mut self.frames);
        Ok((handle, page_ref))
    }
}

} // verus!
