//! The bounded page manager: at most `limit` pages, and eviction through a
//! replacement strategy once the pool is full.
use vstd::prelude::*;

use crate::page::{Frame, Frames, Page, PageHandle, PageId, PageRef};
use crate::strategy::{lemma_remove_member, NoPages, ReplacementStrategy};

verus! {

/// The identifiers of a pool of pages.
pub open spec fn ids_of(pool: Seq<Page>) -> Seq<PageId> {
    pool.map_values(|p: Page| p.id)
}

/// The pool of pages over a frame arena, bounded by `limit`.
pub struct BufferedPageManager<R> {
    pub frames: Frames,
    pub pool: Vec<Page>,
    pub strat: R,
    pub limit: usize,
}

impl<R: ReplacementStrategy> BufferedPageManager<R> {
    pub open spec fn pool_ids(&self) -> Seq<PageId> {
        ids_of(self.pool@)
    }

    pub open spec fn wf(&self) -> bool {
        &&& self.frames.wf()
        &&& self.strat.wf()
        &&& self.pool@.len() <= self.limit
        &&& self.pool_ids().no_duplicates()
        &&& forall|i: int|
            0 <= i < self.pool@.len() ==> {
                let id = #[trigger] self.pool@[i].id;
                &&& self.frames.contains(id)
                &&& self.frames.frame(id).ref_count >= 1
                &&& self.frames.frame(id).handle_count >= 1
            }
        &&& self.strat.candidates().no_duplicates()
        &&& forall|id: PageId| #[trigger]
            self.strat.candidates().contains(id) ==> self.pool_ids().contains(id)
        &&& R::tracks() ==> forall|id: PageId| #[trigger]
            self.pool_ids().contains(id) ==> self.strat.candidates().contains(id)
    }

    /// An empty pool for at most `limit` pages of `page_size` bytes.
    pub fn new(limit: usize, page_size: usize) -> (r: Self)
        requires
            page_size > 0,
        ensures
            r.wf(),
            r.limit == limit,
            r.frames.page_size == page_size,
            r.frames.slots@.len() == 0,
            r.pool@.len() == 0,
    {
        let r = BufferedPageManager {
            frames: Frames::new(page_size),
            pool: Vec::new(),
            strat: R::new(limit),
            limit,
        };
        assert(r.pool_ids() =~= Seq::<PageId>::empty());
        r
    }

    proof fn lemma_pool_member(&self, i: int)
        requires
            0 <= i < self.pool@.len(),
        ensures
            self.pool_ids()[i] == self.pool@[i].id,
            self.pool_ids().contains(self.pool@[i].id),
    {
        assert(self.pool_ids()[i] == self.pool@[i].id);
    }

    fn add_page(&mut self, page: Page)
        requires
            old(self).wf(),
            old(self).pool@.len() < old(self).limit,
            page.id == PageId((old(self).frames.slots@.len() - 1) as usize),
            old(self).frames.slots@.len() >= 1,
            old(self).frames.frame(page.id).ref_count >= 1,
            old(self).frames.frame(page.id).handle_count >= 1,
            forall|i: int|
                0 <= i < old(self).pool@.len() ==> (#[trigger] old(self).pool@[i]).id.0
                    < page.id.0,
        ensures
            final(self).wf(),
            final(self).frames == old(self).frames,
            final(self).limit == old(self).limit,
            final(self).pool_ids() == old(self).pool_ids().push(page.id),
            R::tracks() ==> final(self).strat.candidates() == old(self).strat.candidates().push(page.id),
            !R::tracks() ==> final(self).strat.candidates() == old(self).strat.candidates(),
    {
        let id = page.id;
        proof {
            if self.strat.candidates().contains(id) {
                let i = choose|i: int| 0 <= i < self.pool@.len() && self.pool_ids()[i] == id;
                self.lemma_pool_member(i);
            }
        }
        self.strat.allocate(id);
        let ghost before = self.pool_ids();
        self.pool.push(page);
        assert(self.pool_ids() =~= before.push(id));
        proof {
            assert forall|a: int, b: int|
                0 <= a < self.pool_ids().len() && 0 <= b < self.pool_ids().len() && a != b
                implies self.pool_ids()[a] != self.pool_ids()[b] by {
                if a < before.len() && b < before.len() {
                } else {
                    let k = if a < before.len() { a } else { b };
                    if k < before.len() {
                        self.lemma_pool_member(k);
                    }
                }
            }
            assert forall|id2: PageId| #[trigger]
                self.strat.candidates().contains(id2) implies self.pool_ids().contains(id2) by {
                if id2 == id {
                    assert(self.pool_ids()[before.len() as int] == id);
                } else {
                    assert(old(self).strat.candidates().contains(id2));
                    let i = choose|i: int| 0 <= i < before.len() && before[i] == id2;
                    assert(self.pool_ids()[i] == id2);
                }
            }
            if R::tracks() {
                assert forall|id2: PageId| #[trigger]
                    self.pool_ids().contains(id2) implies self.strat.candidates().contains(id2) by {
                    let i = choose|i: int| 0 <= i < self.pool_ids().len() && self.pool_ids()[i] == id2;
                    if i == before.len() {
                        assert(self.strat.candidates()[old(self).strat.candidates().len() as int] == id2);
                    } else {
                        assert(before[i] == id2);
                        assert(before == old(self).pool_ids());
                        assert(old(self).pool_ids().contains(id2));
                        assert(old(self).strat.candidates().contains(id2));
                        let j = choose|j: int| 0 <= j < old(self).strat.candidates().len() && old(self).strat.candidates()[j] == id2;
                        assert(self.strat.candidates()[j] == id2);
                    }
                }
            }
        }
    }
}

impl<R: ReplacementStrategy> BufferedPageManager<R> {
    /// Where `victim` stands in the pool.
    fn find_page(&self, victim: PageId) -> (r: usize)
        requires
            self.pool_ids().contains(victim),
        ensures
            r < self.pool@.len(),
            self.pool@[r as int].id == victim,
    {
        let mut j: usize = 0;
        while j < self.pool.len()
            invariant
                j <= self.pool@.len(),
                self.pool_ids().contains(victim),
                forall|k: int| 0 <= k < j ==> (#[trigger] self.pool@[k]).id != victim,
            decreases self.pool@.len() - j,
        {
            if self.pool[j].id == victim {
                return j;
            }
            j += 1;
        }
        proof {
            let k = choose|k: int| 0 <= k < self.pool_ids().len() && self.pool_ids()[k] == victim;
            self.lemma_pool_member(k);
        }
        0
    }

    /// A frame for a new page: a fresh one while the pool has room, else the buffer
    /// of a page that the strategy evicts.
    pub fn allocate(&mut self) -> (r: Result<(PageHandle, PageRef), NoPages>)
        requires
            old(self).wf(),
            old(self).frames.slots@.len() < usize::MAX,
        ensures
            final(self).wf(),
            final(self).limit == old(self).limit,
            final(self).frames.page_size == old(self).frames.page_size,
            old(self).pool@.len() < old(self).limit ==> r is Ok && final(self).frames.bytes(
                PageId(old(self).frames.slots@.len() as usize),
            ) == Seq::new(old(self).frames.page_size as nat, |i: int| 0u8)
                && final(self).pool_ids() == old(self).pool_ids().push(
                PageId(old(self).frames.slots@.len() as usize),
            ),
            r is Ok ==> fresh_frame(old(self).frames, final(self).frames, r->Ok_0.0, r->Ok_0.1)
                && final(self).pool_ids().contains(r->Ok_0.0.id),
            frames_evolve(old(self).frames, final(self).frames),
            old(self).pool@.len() >= old(self).limit ==> (r is Err <==> forall|j: int|
                0 <= j < old(self).strat.candidates().len() ==> !old(self).frames.evictable(
                    #[trigger] old(self).strat.candidates()[j],
                )),
            r is Err ==> final(self).frames.slots@ == old(self).frames.slots@ && final(self).pool_ids()
                == old(self).pool_ids() && final(self).strat.candidates()
                == old(self).strat.candidates(),
            old(self).pool@.len() >= old(self).limit && r is Ok ==> exists|i: int|
                #![trigger old(self).strat.candidates()[i]]
                victim_at(old(self).frames, old(self).strat.candidates(), i, R::ordered()) && {
                    let v = old(self).strat.candidates()[i];
                    &&& !final(self).pool_ids().contains(v)
                    &&& !final(self).strat.candidates().contains(v)
                    &&& final(self).frames.frame(v).ref_count == 0
                    &&& final(self).frames.bytes(r->Ok_0.0.id) == old(self).frames.bytes(v)
                    &&& final(self).pool@.len() == old(self).pool@.len()
                },
    {
        if self.pool.len() < self.limit {
            let (page, handle, page_ref) = Page::allocate_with_size(&mut self.frames);
            proof {
                assert forall|i: int| 0 <= i < self.pool@.len() implies (#[trigger] self.pool@[i]).id.0
                    < page.id.0 by {
                }
                assert forall|i: int|
                    0 <= i < self.pool@.len() implies self.frames.frame(#[trigger] self.pool@[i].id)
                    == old(self).frames.frame(self.pool@[i].id) by {
                    assert(self.frames.slots@.subrange(0, old(self).frames.slots@.len() as int)[self.pool@[i].id.0 as int]
                        == self.frames.slots@[self.pool@[i].id.0 as int]);
                }
            }
            let ghost id = page.id;
            self.add_page(page);
            assert(self.pool_ids()[self.pool_ids().len() - 1] == id);
            assert forall|k: int| 0 <= k < old(self).frames.slots@.len() implies #[trigger] self.frames.slots@[k]
                == old(self).frames.slots@[k] by {
                assert(self.frames.slots@.subrange(0, old(self).frames.slots@.len() as int)[k]
                    == self.frames.slots@[k]);
            }
            Ok((handle, page_ref))
        } else {
            proof {
                assert forall|i: int|
                    0 <= i < self.strat.candidates().len() implies self.frames.contains(
                    #[trigger] self.strat.candidates()[i],
                ) by {
                    let id = self.strat.candidates()[i];
                    assert(self.strat.candidates().contains(id));
                    let k = choose|k: int| 0 <= k < self.pool_ids().len() && self.pool_ids()[k] == id;
                    self.lemma_pool_member(k);
                }
            }
            match self.strat.evict(&mut self.frames) {
                Err(e) => Err(e),
                Ok((victim, buf)) => {
                    let ghost i = choose|i: int|
                        0 <= i < old(self).strat.candidates().len() && #[trigger] old(
                            self,
                        ).strat.candidates()[i] == victim && crate::strategy::evicted_at(
                            old(self).strat.candidates(),
                            self.strat.candidates(),
                            i,
                        ) && (R::ordered() ==> forall|j: int|
                            0 <= j < i ==> !old(self).frames.evictable(
                                #[trigger] old(self).strat.candidates()[j],
                            ));
                    proof {
                        lemma_remove_member(old(self).strat.candidates(), i);
                        assert(old(self).strat.candidates().contains(victim));
                        assert(old(self).pool_ids().contains(victim));
                    }
                    let j = self.find_page(victim);
                    let ghost ids_before = self.pool_ids();
                    proof {
                        self.lemma_pool_member(j as int);
                    }
                    let old_page = self.pool.remove(j);
                    assert(self.pool_ids() =~= ids_before.remove(j as int));
                    proof {
                        lemma_remove_member(ids_before, j as int);
                    }
                    old_page.release(&mut self.frames);
                    assert(old(self).frames.slots@[victim.0 as int].wf(old(self).frames.page_size as nat));
                    let ghost mid = self.frames;
                    let (page, handle, page_ref) = Page::allocate(&mut self.frames, buf);
                    proof {
                        assert forall|k: int| 0 <= k < self.pool@.len() implies {
                            &&& (#[trigger] self.pool@[k]).id.0 < page.id.0
                            &&& self.pool@[k].id != victim
                            &&& self.frames.frame(self.pool@[k].id) == old(self).frames.frame(self.pool@[k].id)
                        } by {
                            self.lemma_pool_member(k);
                            assert(self.pool_ids().contains(self.pool@[k].id));
                            let kk = if k < j { k } else { k + 1 };
                            assert(old(self).pool@[kk] == self.pool@[k]);
                            old(self).lemma_pool_member(kk);
                            assert(mid.slots@[self.pool@[k].id.0 as int] == self.frames.slots@[self.pool@[k].id.0 as int]);
                        }
                    }
                    proof {
                        assert(ids_before[j as int] == victim);
                        assert forall|id: PageId| #[trigger]
                            self.strat.candidates().contains(id) implies self.pool_ids().contains(id) by {
                            assert(old(self).strat.candidates().contains(id));
                            assert(old(self).pool_ids().contains(id));
                        }
                        if R::tracks() {
                            assert forall|id: PageId| #[trigger]
                                self.pool_ids().contains(id) implies self.strat.candidates().contains(id) by {
                                assert(ids_before.contains(id));
                                assert(old(self).pool_ids().contains(id));
                                assert(old(self).strat.candidates().contains(id));
                            }
                        }
                    }
                    let ghost id = page.id;
                    self.add_page(page);
                    assert(self.pool_ids()[self.pool_ids().len() - 1] == id);
                    assert(self.frames.slots@.len() == old(self).frames.slots@.len() + 1);
                    proof {
                        assert(!self.pool_ids().contains(victim)) by {
                            if self.pool_ids().contains(victim) {
                                let k = choose|k: int| 0 <= k < self.pool_ids().len() && self.pool_ids()[k] == victim;
                                assert(k < self.pool_ids().len() - 1);
                                assert(ids_before.remove(j as int).contains(victim)) by {
                                    assert(ids_before.remove(j as int)[k] == victim);
                                }
                            }
                        }
                        assert(!self.strat.candidates().contains(victim)) by {
                            if self.strat.candidates().contains(victim) && R::tracks() {
                                let k = choose|k: int| 0 <= k < self.strat.candidates().len() && self.strat.candidates()[k] == victim;
                                assert(old(self).strat.candidates().remove(i)[k] == victim);
                            }
                        }
                        assert(victim_at(old(self).frames, old(self).strat.candidates(), i, R::ordered()));
                    }
                    Ok((handle, page_ref))
                },
            }
        }
    }
}

impl<R: ReplacementStrategy> BufferedPageManager<R> {
    /// A change of one frame that keeps pooled frames valid and owned keeps the
    /// pool well formed.
    proof fn lemma_frame_change(old_pm: Self, new_pm: Self, id: PageId)
        requires
            old_pm.wf(),
            new_pm.frames.wf(),
            new_pm.strat == old_pm.strat,
            new_pm.pool@ == old_pm.pool@,
            new_pm.limit == old_pm.limit,
            new_pm.frames.slots@.len() == old_pm.frames.slots@.len(),
            forall|k: int| 0 <= k < old_pm.frames.slots@.len() && k != id.0 ==> new_pm.frames.slots@[k] == old_pm.frames.slots@[k],
            old_pm.frames.contains(id),
            old_pm.frames.frame(id).ref_count >= 1 ==> new_pm.frames.frame(id).ref_count >= 1,
            old_pm.frames.frame(id).ref_count >= 1 ==> new_pm.frames.frame(id).handle_count >= 1
                || new_pm.frames.frame(id).handle_count == old_pm.frames.frame(id).handle_count,
        ensures
            new_pm.wf(),
    {
        assert forall|i: int| 0 <= i < new_pm.pool@.len() implies {
            let pid = #[trigger] new_pm.pool@[i].id;
            &&& new_pm.frames.contains(pid)
            &&& new_pm.frames.frame(pid).ref_count >= 1
            &&& new_pm.frames.frame(pid).handle_count >= 1
        } by {
            assert(old_pm.pool@[i] == new_pm.pool@[i]);
        }
    }

    /// Pins the frame behind `h`, unless it was invalidated.
    pub fn pin(&mut self, h: &PageHandle) -> (r: Result<PageRef, crate::page::PageInvalidated>)
        requires
            old(self).wf(),
            old(self).frames.contains(h.id),
            old(self).frames.frame(h.id).ref_count < usize::MAX,
        ensures
            final(self).wf(),
            final(self).pool == old(self).pool,
            final(self).strat == old(self).strat,
            final(self).limit == old(self).limit,
            final(self).frames.page_size == old(self).frames.page_size,
            r is Err <==> old(self).frames.frame(h.id).ref_count == 0,
            r is Err ==> final(self).frames.slots@ == old(self).frames.slots@,
            r is Ok ==> r->Ok_0.id == h.id && final(self).frames.slots@ == old(self).frames.with_refs(
                h.id,
                (old(self).frames.frame(h.id).ref_count + 1) as usize,
            ),
    {
        let r = h.pin(&mut self.frames);
        proof {
            Self::lemma_frame_change(*old(self), *self, h.id);
        }
        r
    }

    /// The bytes behind a live reference; the strategy learns of the read.
    pub fn read(&mut self, r: &PageRef) -> (b: Vec<u8>)
        requires
            old(self).wf(),
            old(self).frames.pinned(r.id),
        ensures
            final(self).wf(),
            b@ == old(self).frames.bytes(r.id),
            final(self).frames == old(self).frames,
            final(self).pool == old(self).pool,
            final(self).limit == old(self).limit,
            final(self).strat.candidates() == old(self).strat.accessed(r.id),
    {
        let b = vstd::slice::slice_to_vec(r.read(&self.frames, &mut self.strat));
        b
    }

    /// Replaces the bytes behind a live reference; the strategy learns of the write.
    pub fn write(&mut self, r: &PageRef, contents: Vec<u8>)
        requires
            old(self).wf(),
            old(self).frames.pinned(r.id),
            contents@.len() == old(self).frames.page_size,
        ensures
            final(self).wf(),
            final(self).frames.page_size == old(self).frames.page_size,
            final(self).frames.slots@ == old(self).frames.with_frame(
                r.id,
                Frame {
                    handle_count: old(self).frames.frame(r.id).handle_count,
                    ref_count: old(self).frames.frame(r.id).ref_count,
                    payload: Some(contents),
                },
            ),
            final(self).pool == old(self).pool,
            final(self).limit == old(self).limit,
            final(self).strat.candidates() == old(self).strat.accessed(r.id),
    {
        r.write(&mut self.frames, &mut self.strat, contents);
        let ghost mid = BufferedPageManager { frames: self.frames, pool: self.pool, strat: old(self).strat, limit: self.limit };
        proof {
            Self::lemma_frame_change(*old(self), mid, r.id);
        }
    }

    /// The bytes behind a live reference, without telling the strategy.
    pub fn contents(&self, r: &PageRef) -> (b: Vec<u8>)
        requires
            self.wf(),
            self.frames.pinned(r.id),
        ensures
            b@ == self.frames.bytes(r.id),
    {
        let i = r.id.0;
        assert(self.frames.slots@[i as int].wf(self.frames.page_size as nat));
        match &self.frames.slots[i].payload {
            Some(b) => b.clone(),
            None => Vec::new(),
        }
    }

    /// Replaces the bytes behind a live reference without telling the strategy:
    /// loading a page is no use of it.
    pub fn fill(&mut self, r: &PageRef, contents: Vec<u8>)
        requires
            old(self).wf(),
            old(self).frames.pinned(r.id),
            contents@.len() == old(self).frames.page_size,
        ensures
            final(self).wf(),
            final(self).frames.page_size == old(self).frames.page_size,
            final(self).frames.slots@ == old(self).frames.with_frame(
                r.id,
                Frame {
                    handle_count: old(self).frames.frame(r.id).handle_count,
                    ref_count: old(self).frames.frame(r.id).ref_count,
                    payload: Some(contents),
                },
            ),
            final(self).pool == old(self).pool,
            final(self).strat == old(self).strat,
            final(self).limit == old(self).limit,
    {
        self.frames.fill(r.id, contents);
        proof {
            Self::lemma_frame_change(*old(self), *self, r.id);
        }
    }

    /// Another reference to the frame of `r`.
    pub fn clone_ref(&mut self, r: &PageRef) -> (c: PageRef)
        requires
            old(self).wf(),
            old(self).frames.pinned(r.id),
            old(self).frames.frame(r.id).ref_count < usize::MAX,
        ensures
            final(self).wf(),
            c.id == r.id,
            final(self).pool == old(self).pool,
            final(self).strat == old(self).strat,
            final(self).limit == old(self).limit,
            final(self).frames.page_size == old(self).frames.page_size,
            final(self).frames.slots@ == old(self).frames.with_refs(
                r.id,
                (old(self).frames.frame(r.id).ref_count + 1) as usize,
            ),
    {
        let c = r.clone_ref(&mut self.frames);
        proof {
            Self::lemma_frame_change(*old(self), *self, r.id);
        }
        c
    }

    /// Drops a live reference.
    pub fn release_ref(&mut self, r: PageRef)
        requires
            old(self).wf(),
            old(self).frames.pinned(r.id),
        ensures
            final(self).wf(),
            final(self).pool == old(self).pool,
            final(self).strat == old(self).strat,
            final(self).limit == old(self).limit,
            final(self).frames.page_size == old(self).frames.page_size,
            final(self).frames.slots@ == old(self).frames.with_refs(
                r.id,
                (old(self).frames.frame(r.id).ref_count - 1) as usize,
            ),
    {
        let ghost id = r.id;
        r.release(&mut self.frames);
        proof {
            Self::lemma_frame_change(*old(self), *self, id);
        }
    }

    /// Drops a handle. The last owner of a frame may only go once it is invalidated.
    pub fn release_handle(&mut self, h: PageHandle)
        requires
            old(self).wf(),
            old(self).frames.contains(h.id),
            old(self).frames.frame(h.id).handle_count >= 2 || (old(self).frames.frame(h.id).handle_count
                == 1 && old(self).frames.frame(h.id).ref_count == 0),
        ensures
            final(self).wf(),
            final(self).pool == old(self).pool,
            final(self).strat == old(self).strat,
            final(self).limit == old(self).limit,
            final(self).frames.page_size == old(self).frames.page_size,
            final(self).frames.slots@ == old(self).frames.with_handles(
                h.id,
                (old(self).frames.frame(h.id).handle_count - 1) as usize,
            ),
    {
        let ghost id = h.id;
        h.release(&mut self.frames);
        proof {
            Self::lemma_frame_change(*old(self), *self, id);
        }
    }
}

/// A well-formed pool never holds more pages than its capacity.
pub proof fn lemma_pool_bounded<R: ReplacementStrategy>(pm: BufferedPageManager<R>)
    requires
        pm.wf(),
    ensures
        pm.pool@.len() <= pm.limit,
        pm.strat.candidates().len() <= pm.limit,
{
    pm.strat.candidates().unique_seq_to_set();
    pm.pool_ids().unique_seq_to_set();
    vstd::seq_lib::seq_to_set_is_finite(pm.pool_ids());
    assert(pm.strat.candidates().to_set().subset_of(pm.pool_ids().to_set()));
    vstd::set_lib::lemma_len_subset(pm.strat.candidates().to_set(), pm.pool_ids().to_set());
    assert(pm.pool_ids().len() == pm.pool@.len());
}

/// Every frame that existed is unchanged or was invalidated while nothing pinned it.
pub open spec fn frames_evolve(before: Frames, after: Frames) -> bool {
    &&& after.page_size == before.page_size
    &&& after.slots@.len() >= before.slots@.len()
    &&& forall|k: int|
        0 <= k < before.slots@.len() ==> #[trigger] after.slots@[k] == before.slots@[k] || (
        before.slots@[k].ref_count == 1 && after.slots@[k].ref_count == 0)
}

/// The handle and reference name a new frame at the end of the arena, with one
/// reference and two owners.
pub open spec fn fresh_frame(before: Frames, after: Frames, h: PageHandle, r: PageRef) -> bool {
    let id = PageId(before.slots@.len() as usize);
    &&& h.id == id
    &&& r.id == id
    &&& after.slots@.len() == before.slots@.len() + 1
    &&& after.frame(id).ref_count == 2
    &&& after.frame(id).handle_count == 2
}

/// The candidate at `i` could be invalidated and, for an ordered strategy, none
/// before it could.
pub open spec fn victim_at(frames: Frames, cands: Seq<PageId>, i: int, ordered: bool) -> bool {
    &&& 0 <= i < cands.len()
    &&& frames.evictable(cands[i])
    &&& ordered ==> forall|j: int| 0 <= j < i ==> !frames.evictable(#[trigger] cands[j])
}

} // verus!
