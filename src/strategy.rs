//! Replacement strategies: they track the cached pages and propose eviction
//! candidates in their own order; the frame arena decides whether a candidate
//! can go.
use vstd::prelude::*;

use linked_hash_map::LinkedHashMap;
use rand::Rng;

use crate::page::{Frames, PageId};

verus! {

/// Every page that could be evicted is pinned.
#[derive(Debug, PartialEq, Eq, Structural)]
pub struct NoPages;

/// A policy over the identifiers of cached pages.
pub trait ReplacementStrategy: Sized {
    /// The tracked pages, in the order in which eviction tries them.
    spec fn candidates(&self) -> Seq<PageId>;

    /// Whether eviction takes the first candidate, in order, that can go.
    spec fn ordered() -> bool;

    /// Whether `allocate` records pages at all.
    spec fn tracks() -> bool;

    /// The candidates after a read or write of `id`.
    spec fn accessed(&self, id: PageId) -> Seq<PageId>;

    spec fn wf(&self) -> bool;

    fn new(limit: usize) -> (r: Self)
        ensures
            r.wf(),
            r.candidates() == Seq::<PageId>::empty(),
    ;

    /// Records a page that is now cached.
    fn allocate(&mut self, id: PageId)
        requires
            old(self).wf(),
            !old(self).candidates().contains(id),
        ensures
            final(self).wf(),
            Self::tracks() ==> final(self).candidates() == old(self).candidates().push(id),
            !Self::tracks() ==> final(self).candidates() == old(self).candidates(),
    ;

    /// A page was read through a reference.
    fn read(&mut self, id: PageId)
        requires
            old(self).wf(),
        ensures
            final(self).wf(),
            final(self).candidates() == old(self).accessed(id),
            same_members(old(self).candidates(), final(self).candidates()),
    ;

    /// A page was written through a reference.
    fn write(&mut self, id: PageId)
        requires
            old(self).wf(),
        ensures
            final(self).wf(),
            final(self).candidates() == old(self).accessed(id),
            same_members(old(self).candidates(), final(self).candidates()),
    ;

    /// Tries candidates until the arena invalidates one; that one leaves the
    /// tracked pages and is returned with its reclaimed buffer.
    fn evict(&mut self, frames: &mut Frames) -> (r: Result<(PageId, Vec<u8>), NoPages>)
        requires
            old(self).wf(),
            old(frames).wf(),
            forall|i: int|
                0 <= i < old(self).candidates().len() ==> old(frames).contains(
                    #[trigger] old(self).candidates()[i],
                ),
        ensures
            final(self).wf(),
            final(frames).wf(),
            final(frames).page_size == old(frames).page_size,
            r is Ok ==> exists|i: int|
                0 <= i < old(self).candidates().len() && #[trigger] old(self).candidates()[i]
                    == r->Ok_0.0 && evicted_at(old(self).candidates(), final(self).candidates(), i)
                    && (Self::ordered() ==> forall|j: int|
                    0 <= j < i ==> !old(frames).evictable(#[trigger] old(self).candidates()[j])),
            r is Ok ==> old(frames).evictable(r->Ok_0.0) && r->Ok_0.1@ == old(frames).bytes(r->Ok_0.0)
                && final(frames).slots@ == old(frames).invalidated(r->Ok_0.0),
            r is Err ==> final(self).candidates() == old(self).candidates() && final(frames).slots@
                == old(frames).slots@,
            r is Err ==> forall|j: int|
                0 <= j < old(self).candidates().len() ==> !old(frames).evictable(
                    #[trigger] old(self).candidates()[j],
                ),
    ;
}

/// Two sequences hold the same elements, and the second repeats none if the first does not.
pub open spec fn same_members(a: Seq<PageId>, b: Seq<PageId>) -> bool {
    &&& forall|x: PageId| a.contains(x) <==> b.contains(x)
    &&& a.no_duplicates() ==> b.no_duplicates()
}

/// Moving one element to the back keeps the elements.
pub proof fn lemma_move_to_back(s: Seq<PageId>, i: int)
    requires
        0 <= i < s.len(),
    ensures
        same_members(s, s.remove(i).push(s[i])),
{
    let t = s.remove(i).push(s[i]);
    assert forall|x: PageId| s.contains(x) <==> t.contains(x) by {
        if s.contains(x) {
            let p = choose|p: int| 0 <= p < s.len() && s[p] == x;
            if p < i {
                assert(t[p] == x);
            } else if p == i {
                assert(t[s.len() - 1] == x);
            } else {
                assert(t[p - 1] == x);
            }
        }
        if t.contains(x) {
            let p = choose|p: int| 0 <= p < t.len() && t[p] == x;
            if p == t.len() - 1 {
                assert(s[i] == x);
            } else if p < i {
                assert(s[p] == x);
            } else {
                assert(s[p + 1] == x);
            }
        }
    }
    if s.no_duplicates() {
        assert forall|a: int, b: int| 0 <= a < t.len() && 0 <= b < t.len() && a != b implies t[a]
            != t[b] by {
            let sa = if a == t.len() - 1 { i } else if a < i { a } else { a + 1 };
            let sb = if b == t.len() - 1 { i } else if b < i { b } else { b + 1 };
            assert(t[a] == s[sa] && t[b] == s[sb]);
        }
    }
}

/// Removing one element of a sequence without repeats removes exactly that value.
pub proof fn lemma_remove_member(s: Seq<PageId>, i: int)
    requires
        0 <= i < s.len(),
        s.no_duplicates(),
    ensures
        s.remove(i).no_duplicates(),
        forall|x: PageId| s.remove(i).contains(x) <==> (s.contains(x) && x != s[i]),
{
    let t = s.remove(i);
    assert forall|x: PageId| t.contains(x) <==> (s.contains(x) && x != s[i]) by {
        if t.contains(x) {
            let p = choose|p: int| 0 <= p < t.len() && t[p] == x;
            if p < i {
                assert(s[p] == x);
            } else {
                assert(s[p + 1] == x);
            }
        }
        if s.contains(x) && x != s[i] {
            let p = choose|p: int| 0 <= p < s.len() && s[p] == x;
            if p < i {
                assert(t[p] == x);
            } else {
                assert(t[p - 1] == x);
            }
        }
    }
    assert forall|a: int, b: int| 0 <= a < t.len() && 0 <= b < t.len() && a != b implies t[a]
        != t[b] by {
        let sa = if a < i { a } else { a + 1 };
        let sb = if b < i { b } else { b + 1 };
        assert(t[a] == s[sa] && t[b] == s[sb]);
    }
}

/// The candidates lost exactly the one at position `i`.
pub open spec fn evicted_at(before: Seq<PageId>, after: Seq<PageId>, i: int) -> bool {
    after == before.remove(i)
}

/// Never tracks anything and never evicts: for pools without a bound.
pub struct NoOpReplacementStrategy;

impl ReplacementStrategy for NoOpReplacementStrategy {
    open spec fn candidates(&self) -> Seq<PageId> {
        Seq::empty()
    }

    open spec fn ordered() -> bool {
        true
    }

    open spec fn tracks() -> bool {
        false
    }

    open spec fn accessed(&self, id: PageId) -> Seq<PageId> {
        Seq::empty()
    }

    open spec fn wf(&self) -> bool {
        true
    }

    fn new(limit: usize) -> (r: Self) {
        NoOpReplacementStrategy
    }

    fn allocate(&mut self, id: PageId) {
    }

    fn read(&mut self, id: PageId) {
    }

    fn write(&mut self, id: PageId) {
    }

    fn evict(&mut self, frames: &mut Frames) -> (r: Result<(PageId, Vec<u8>), NoPages>) {
        Err(NoPages)
    }
}

/// Evicts in order of allocation; accesses change nothing.
pub struct FifoReplacementStrategy {
    pub pages: Vec<PageId>,
}

impl ReplacementStrategy for FifoReplacementStrategy {
    open spec fn candidates(&self) -> Seq<PageId> {
        self.pages@
    }

    open spec fn ordered() -> bool {
        true
    }

    open spec fn tracks() -> bool {
        true
    }

    open spec fn accessed(&self, id: PageId) -> Seq<PageId> {
        self.pages@
    }

    open spec fn wf(&self) -> bool {
        true
    }

    fn new(limit: usize) -> (r: Self) {
        FifoReplacementStrategy { pages: Vec::new() }
    }

    fn allocate(&mut self, id: PageId) {
        self.pages.push(id);
    }

    fn read(&mut self, id: PageId) {
    }

    fn write(&mut self, id: PageId) {
    }

    fn evict(&mut self, frames: &mut Frames) -> (r: Result<(PageId, Vec<u8>), NoPages>) {
        let mut i: usize = 0;
        assert(self.candidates() == self.pages@);
        assert(forall|k: int|
            0 <= k < self.pages@.len() ==> frames.contains(#[trigger] self.candidates()[k]));
        while i < self.pages.len()
            invariant
                0 <= i <= self.pages@.len(),
                self.pages@ == old(self).pages@,
                frames.slots@ == old(frames).slots@,
                frames.page_size == old(frames).page_size,
                frames.wf(),
                forall|k: int| 0 <= k < self.pages@.len() ==> frames.contains(#[trigger] self.pages@[k]),
                forall|j: int| 0 <= j < i ==> !frames.evictable(#[trigger] self.pages@[j]),
            decreases self.pages@.len() - i,
        {
            let id = self.pages[i];
            match frames.reclaim(id) {
                Some(buf) => {
                    self.pages.remove(i);
                    assert(evicted_at(old(self).pages@, self.pages@, i as int));
                    assert(old(self).candidates()[i as int] == id);
                    return Ok((id, buf));
                },
                None => {},
            }
            i += 1;
        }
        Err(NoPages)
    }
}

/// Evicts a candidate drawn at random, without drawing one twice in one call.
pub struct RandomReplacementStrategy {
    pub pages: Vec<PageId>,
}

/// Relies on rand's `gen_range` over `thread_rng`: a value in `0..n`; it panics on an
/// empty range, hence `n > 0`.
#[verifier::external_body]
fn random_index(n: usize) -> (r: usize)
    requires
        n > 0,
    ensures
        r < n,
{
    rand::thread_rng().gen_range(0..n)
}

impl ReplacementStrategy for RandomReplacementStrategy {
    open spec fn candidates(&self) -> Seq<PageId> {
        self.pages@
    }

    open spec fn ordered() -> bool {
        false
    }

    open spec fn tracks() -> bool {
        true
    }

    open spec fn accessed(&self, id: PageId) -> Seq<PageId> {
        self.pages@
    }

    open spec fn wf(&self) -> bool {
        true
    }

    fn new(limit: usize) -> (r: Self) {
        RandomReplacementStrategy { pages: Vec::new() }
    }

    fn allocate(&mut self, id: PageId) {
        self.pages.push(id);
    }

    fn read(&mut self, id: PageId) {
    }

    fn write(&mut self, id: PageId) {
    }

    fn evict(&mut self, frames: &mut Frames) -> (r: Result<(PageId, Vec<u8>), NoPages>) {
        let n = self.pages.len();
        assert(self.candidates() == self.pages@);
        let mut rest: Vec<usize> = Vec::new();
        let mut k: usize = 0;
        while k < n
            invariant
                k <= n == self.pages@.len(),
                rest@ == Seq::new(k as nat, |j: int| j as usize),
            decreases n - k,
        {
            rest.push(k);
            k += 1;
        }
        assert forall|j: int|
            0 <= j < n implies rest@.contains(j as usize) || !frames.evictable(
                #[trigger] self.pages@[j],
            ) by {
            assert(rest@[j] == j as usize);
        }
        while rest.len() > 0
            invariant
                n == self.pages@.len(),
                self.pages@ == old(self).pages@,
                frames.slots@ == old(frames).slots@,
                frames.page_size == old(frames).page_size,
                frames.wf(),
                forall|m: int| 0 <= m < n ==> frames.contains(#[trigger] self.pages@[m]),
                forall|m: int| 0 <= m < rest@.len() ==> #[trigger] rest@[m] < n,
                forall|j: int|
                    0 <= j < n ==> rest@.contains(j as usize) || !frames.evictable(
                        #[trigger] self.pages@[j],
                    ),
            decreases rest@.len(),
        {
            let pick = random_index(rest.len());
            let idx = rest[pick];
            let id = self.pages[idx];
            match frames.reclaim(id) {
                Some(buf) => {
                    self.pages.remove(idx);
                    assert(evicted_at(old(self).pages@, self.pages@, idx as int));
                    assert(old(self).candidates()[idx as int] == id);
                    return Ok((id, buf));
                },
                None => {},
            }
            let ghost before = rest@;
            rest.swap_remove(pick);
            assert forall|j: int|
                0 <= j < n implies rest@.contains(j as usize) || !frames.evictable(
                    #[trigger] self.pages@[j],
                ) by {
                if before.contains(j as usize) && j as usize != idx {
                    let p = choose|p: int| 0 <= p < before.len() && before[p] == j as usize;
                    if p == before.len() - 1 {
                        assert(rest@[pick as int] == j as usize);
                    } else {
                        assert(rest@[p] == j as usize);
                    }
                }
            }
        }
        assert forall|j: int|
            0 <= j < old(self).candidates().len() implies !old(frames).evictable(
                #[trigger] old(self).candidates()[j],
            ) by {
            assert(!rest@.contains(j as usize));
        }
        Err(NoPages)
    }
}

} // verus!
