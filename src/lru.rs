//! The least-recently-used strategy, kept in a `LinkedHashMap` whose key order is
//! the order of last access.
use vstd::prelude::*;

use linked_hash_map::LinkedHashMap;

use crate::page::{Frames, PageId};
use crate::strategy::{evicted_at, lemma_move_to_back, same_members, NoPages, ReplacementStrategy};

verus! {

#[verifier::external_type_specification]
#[verifier::external_body]
#[verifier::reject_recursive_types(K)]
#[verifier::reject_recursive_types(V)]
#[verifier::reject_recursive_types(S)]
pub struct ExLinkedHashMap<K, V, S>(LinkedHashMap<K, V, S>);

/// The keys of a linked hash map, from the least to the most recently touched.
pub uninterp spec fn key_order(m: LinkedHashMap<usize, ()>) -> Seq<usize>;

/// Relies on `LinkedHashMap::new`: an empty map.
#[verifier::external_body]
fn keys_new() -> (m: LinkedHashMap<usize, ()>)
    ensures
        key_order(m) == Seq::<usize>::empty(),
{
    LinkedHashMap::new()
}

/// Relies on `LinkedHashMap::insert`: a new key goes to the back; a present key
/// is moved to the back and its old value returned.
#[verifier::external_body]
fn keys_insert(m: &mut LinkedHashMap<usize, ()>, k: usize) -> (r: Option<()>)
    ensures
        key_order(*final(m)).no_duplicates(),
        !key_order(*old(m)).contains(k) ==> r is None && key_order(*final(m)) == key_order(
            *old(m),
        ).push(k),
        key_order(*old(m)).contains(k) ==> r is Some,
        forall|i: int|
            0 <= i < key_order(*old(m)).len() && key_order(*old(m))[i] == k ==> key_order(
                *final(m),
            ) == #[trigger] key_order(*old(m)).remove(i).push(k),
{
    m.insert(k, ())
}

/// Relies on `LinkedHashMap::get_refresh`: a present key is moved to the back.
#[verifier::external_body]
fn keys_refresh(m: &mut LinkedHashMap<usize, ()>, k: usize)
    ensures
        key_order(*final(m)).no_duplicates(),
        !key_order(*old(m)).contains(k) ==> key_order(*final(m)) == key_order(*old(m)),
        forall|i: int|
            0 <= i < key_order(*old(m)).len() && key_order(*old(m))[i] == k ==> key_order(
                *final(m),
            ) == #[trigger] key_order(*old(m)).remove(i).push(k),
{
    m.get_refresh(&k);
}

/// Relies on `LinkedHashMap::remove`: the key leaves the order; its value is returned
/// if it was present.
#[verifier::external_body]
fn keys_remove(m: &mut LinkedHashMap<usize, ()>, k: usize) -> (r: Option<()>)
    ensures
        key_order(*final(m)).no_duplicates(),
        r is Some <==> key_order(*old(m)).contains(k),
        !key_order(*old(m)).contains(k) ==> key_order(*final(m)) == key_order(*old(m)),
        forall|i: int|
            0 <= i < key_order(*old(m)).len() && key_order(*old(m))[i] == k ==> key_order(
                *final(m),
            ) == #[trigger] key_order(*old(m)).remove(i),
{
    m.remove(&k)
}

/// Relies on `LinkedHashMap::keys`: the keys in the map's order.
#[verifier::external_body]
fn keys_in_order(m: &LinkedHashMap<usize, ()>) -> (r: Vec<usize>)
    ensures
        r@ == key_order(*m),
{
    m.keys().copied().collect()
}

/// The page identifiers named by a sequence of keys.
pub open spec fn as_pages(keys: Seq<usize>) -> Seq<PageId> {
    keys.map_values(|k: usize| PageId(k))
}

/// Where `id` stands among `s`.
pub open spec fn position(s: Seq<PageId>, id: PageId) -> int {
    choose|i: int| 0 <= i < s.len() && s[i] == id
}

proof fn lemma_as_pages_remove(keys: Seq<usize>, i: int)
    requires
        0 <= i < keys.len(),
    ensures
        as_pages(keys.remove(i)) == as_pages(keys).remove(i),
{
    assert(as_pages(keys.remove(i)) =~= as_pages(keys).remove(i));
}

proof fn lemma_as_pages_push(keys: Seq<usize>, k: usize)
    ensures
        as_pages(keys.push(k)) == as_pages(keys).push(PageId(k)),
{
    assert(as_pages(keys.push(k)) =~= as_pages(keys).push(PageId(k)));
}

proof fn lemma_as_pages_contains(keys: Seq<usize>, k: usize)
    ensures
        as_pages(keys).contains(PageId(k)) <==> keys.contains(k),
{
    if keys.contains(k) {
        let i = choose|i: int| 0 <= i < keys.len() && keys[i] == k;
        assert(as_pages(keys)[i] == PageId(k));
    }
    if as_pages(keys).contains(PageId(k)) {
        let i = choose|i: int| 0 <= i < keys.len() && as_pages(keys)[i] == PageId(k);
        assert(keys[i] == k);
    }
}

/// Evicts the page that was least recently allocated, read or written.
pub struct LruReplacementStrategy {
    pub pages: LinkedHashMap<usize, ()>,
}

impl LruReplacementStrategy {
    fn touch(&mut self, id: PageId)
        requires
            old(self).wf(),
        ensures
            final(self).wf(),
            final(self).candidates() == old(self).accessed(id),
            same_members(old(self).candidates(), final(self).candidates()),
    {
        let ghost keys = key_order(self.pages);
        keys_refresh(&mut self.pages, id.0);
        proof {
            lemma_as_pages_contains(keys, id.0);
            if keys.contains(id.0) {
                let i = position(as_pages(keys), id);
                assert(keys[i] == id.0);
                lemma_as_pages_remove(keys, i);
                lemma_as_pages_push(keys.remove(i), id.0);
                lemma_move_to_back(as_pages(keys), i);
            }
        }
    }
}

impl ReplacementStrategy for LruReplacementStrategy {
    open spec fn candidates(&self) -> Seq<PageId> {
        as_pages(key_order(self.pages))
    }

    open spec fn ordered() -> bool {
        true
    }

    open spec fn tracks() -> bool {
        true
    }

    open spec fn accessed(&self, id: PageId) -> Seq<PageId> {
        let c = self.candidates();
        if c.contains(id) {
            c.remove(position(c, id)).push(id)
        } else {
            c
        }
    }

    open spec fn wf(&self) -> bool {
        key_order(self.pages).no_duplicates()
    }

    fn new(limit: usize) -> (r: Self) {
        let r = LruReplacementStrategy { pages: keys_new() };
        assert(r.candidates() =~= Seq::<PageId>::empty());
        r
    }

    fn allocate(&mut self, id: PageId) {
        let ghost keys = key_order(self.pages);
        proof {
            lemma_as_pages_contains(keys, id.0);
        }
        let present = keys_insert(&mut self.pages, id.0);
        proof {
            lemma_as_pages_push(keys, id.0);
        }
    }

    fn read(&mut self, id: PageId) {
        self.touch(id);
    }

    fn write(&mut self, id: PageId) {
        self.touch(id);
    }

    fn evict(&mut self, frames: &mut Frames) -> (r: Result<(PageId, Vec<u8>), NoPages>) {
        let keys = keys_in_order(&self.pages);
        let ghost cands = self.candidates();
        assert(forall|k: int| 0 <= k < keys@.len() ==> cands[k] == PageId(#[trigger] keys@[k]));
        let mut i: usize = 0;
        while i < keys.len()
            invariant
                0 <= i <= keys@.len(),
                keys@ == key_order(self.pages),
                cands == self.candidates(),
                cands.len() == keys@.len(),
                *self == *old(self),
                old(self).wf(),
                frames.slots@ == old(frames).slots@,
                frames.page_size == old(frames).page_size,
                frames.wf(),
                forall|k: int| 0 <= k < keys@.len() ==> cands[k] == PageId(#[trigger] keys@[k]),
                forall|k: int| 0 <= k < cands.len() ==> frames.contains(#[trigger] cands[k]),
                forall|j: int| 0 <= j < i ==> !frames.evictable(#[trigger] cands[j]),
            decreases keys@.len() - i,
        {
            let id = PageId(keys[i]);
            assert(cands[i as int] == id);
            match frames.reclaim(id) {
                Some(buf) => {
                    let ghost before = key_order(self.pages);
                    keys_remove(&mut self.pages, keys[i]);
                    proof {
                        assert(before[i as int] == keys@[i as int]);
                        lemma_as_pages_remove(before, i as int);
                        assert(evicted_at(cands, self.candidates(), i as int));
                    }
                    return Ok((id, buf));
                },
                None => {},
            }
            i += 1;
        }
        Err(NoPages)
    }
}

} // verus!
