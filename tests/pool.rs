use ferrodb::buffered::BufferedPageManager;
use ferrodb::lru::LruReplacementStrategy;
use ferrodb::page::{Frames, Page, PageCannotBeInvalidated, PageInvalidated};
use ferrodb::strategy::{
    FifoReplacementStrategy, NoOpReplacementStrategy, NoPages, RandomReplacementStrategy,
};
use ferrodb::unlimited::UnlimitedPageManager;

#[test]
fn invalidation_needs_an_unpinned_frame() {
    let mut frames = Frames::new(4);
    let (page, handle, page_ref) = Page::allocate_with_size(&mut frames);
    assert_eq!(frames.slots[0].ref_count, 2);
    assert_eq!(frames.slots[0].handle_count, 2);
    assert_eq!(page.try_invalidate(&mut frames), Err(PageCannotBeInvalidated::StillPinned));
    page_ref.release(&mut frames);
    assert_eq!(page.try_invalidate(&mut frames), Ok(vec![0u8; 4]));
    assert_eq!(frames.slots[0].ref_count, 0);
    assert!(frames.slots[0].payload.is_none());
    assert_eq!(
        page.try_invalidate(&mut frames),
        Err(PageCannotBeInvalidated::AlreadyInvalidated)
    );
    assert_eq!(handle.pin(&mut frames).err(), Some(PageInvalidated));
}

#[test]
fn count_is_zero_exactly_without_payload() {
    let mut frames = Frames::new(2);
    let (page, _handle, page_ref) = Page::allocate(&mut frames, vec![7, 8]);
    assert!(frames.slots[0].ref_count > 0 && frames.slots[0].payload.is_some());
    page_ref.release(&mut frames);
    assert!(frames.slots[0].ref_count > 0 && frames.slots[0].payload.is_some());
    let buf = page.try_invalidate(&mut frames).unwrap();
    assert_eq!(buf, vec![7, 8]);
    assert!(frames.slots[0].ref_count == 0 && frames.slots[0].payload.is_none());
}

#[test]
fn pin_and_clone_count_references() {
    let mut pm: BufferedPageManager<FifoReplacementStrategy> = BufferedPageManager::new(2, 4);
    let (handle, page_ref) = pm.allocate().unwrap();
    let again = pm.pin(&handle).unwrap();
    let third = pm.clone_ref(&again);
    assert_eq!(pm.frames.slots[0].ref_count, 4);
    pm.release_ref(page_ref);
    pm.release_ref(again);
    pm.release_ref(third);
    assert_eq!(pm.frames.slots[0].ref_count, 1);
}

#[test]
fn read_and_write_through_reference() {
    let mut pm: BufferedPageManager<LruReplacementStrategy> = BufferedPageManager::new(2, 4);
    let (_handle, page_ref) = pm.allocate().unwrap();
    assert_eq!(pm.read(&page_ref), vec![0, 0, 0, 0]);
    pm.write(&page_ref, vec![1, 2, 3, 4]);
    assert_eq!(pm.read(&page_ref), vec![1, 2, 3, 4]);
}

#[test]
fn two_pinned_references_leave_no_page() {
    let mut pm: BufferedPageManager<LruReplacementStrategy> = BufferedPageManager::new(1, 8);
    let (_handle, page_ref) = pm.allocate().unwrap();
    let _other = pm.clone_ref(&page_ref);
    assert_eq!(pm.allocate().err(), Some(NoPages));
    assert_eq!(pm.pool.len(), 1);
}

#[test]
fn pin_prevents_eviction() {
    let mut pm: BufferedPageManager<FifoReplacementStrategy> = BufferedPageManager::new(1, 8);
    let (handle_a, ref_a) = pm.allocate().unwrap();
    assert_eq!(pm.allocate().err(), Some(NoPages));
    pm.release_ref(ref_a);
    let (_handle_b, _ref_b) = pm.allocate().unwrap();
    assert_eq!(pm.pin(&handle_a).err(), Some(PageInvalidated));
    assert_eq!(pm.pool.len(), 1);
    assert!(pm.pool[0].id != handle_a.id);
    assert!(!pm.strat.pages.contains(&handle_a.id));
}

#[test]
fn fifo_evicts_in_allocation_order() {
    let mut pm: BufferedPageManager<FifoReplacementStrategy> = BufferedPageManager::new(3, 8);
    let mut handles = Vec::new();
    for _ in 0..3 {
        let (h, r) = pm.allocate().unwrap();
        pm.release_ref(r);
        handles.push(h);
    }
    let (_h4, r4) = pm.allocate().unwrap();
    pm.release_ref(r4);
    assert!(pm.pin(&handles[0]).is_err());
    let (_h5, r5) = pm.allocate().unwrap();
    pm.release_ref(r5);
    assert!(pm.pin(&handles[1]).is_err());
    let p3 = pm.pin(&handles[2]).unwrap();
    pm.release_ref(p3);
}

#[test]
fn lru_read_refreshes_page() {
    let mut pm: BufferedPageManager<LruReplacementStrategy> = BufferedPageManager::new(3, 8);
    let mut handles = Vec::new();
    for _ in 0..3 {
        let (h, r) = pm.allocate().unwrap();
        pm.release_ref(r);
        handles.push(h);
    }
    let p1 = pm.pin(&handles[0]).unwrap();
    let _ = pm.read(&p1);
    pm.release_ref(p1);
    let (_h4, r4) = pm.allocate().unwrap();
    pm.release_ref(r4);
    assert!(pm.pin(&handles[1]).is_err());
    let p1 = pm.pin(&handles[0]).unwrap();
    pm.release_ref(p1);
}

#[test]
fn lru_evicts_least_recently_allocated_without_access() {
    let mut pm: BufferedPageManager<LruReplacementStrategy> = BufferedPageManager::new(2, 4);
    let (h1, r1) = pm.allocate().unwrap();
    let (h2, r2) = pm.allocate().unwrap();
    pm.release_ref(r1);
    pm.release_ref(r2);
    let (_h3, _r3) = pm.allocate().unwrap();
    assert!(pm.pin(&h1).is_err());
    assert!(pm.pin(&h2).is_ok());
}

#[test]
fn eviction_recycles_the_buffer() {
    let mut pm: BufferedPageManager<FifoReplacementStrategy> = BufferedPageManager::new(1, 4);
    let (_h1, r1) = pm.allocate().unwrap();
    pm.write(&r1, vec![9, 9, 9, 9]);
    pm.release_ref(r1);
    let (_h2, r2) = pm.allocate().unwrap();
    assert_eq!(pm.read(&r2), vec![9, 9, 9, 9]);
}

#[test]
fn random_evicts_only_unpinned_pages() {
    let mut pm: BufferedPageManager<RandomReplacementStrategy> = BufferedPageManager::new(3, 4);
    let (h1, _r1) = pm.allocate().unwrap();
    let (h2, r2) = pm.allocate().unwrap();
    let (h3, _r3) = pm.allocate().unwrap();
    pm.release_ref(r2);
    let (_h4, r4) = pm.allocate().unwrap();
    assert!(pm.pin(&h2).is_err());
    assert!(pm.pin(&h1).is_ok());
    assert!(pm.pin(&h3).is_ok());
    assert_eq!(pm.strat.pages.len(), 3);
    let _ = r4;
    assert_eq!(pm.allocate().err(), Some(NoPages));
}

#[test]
fn noop_pool_never_evicts() {
    let mut pm: BufferedPageManager<NoOpReplacementStrategy> = BufferedPageManager::new(1, 4);
    let (_h, r) = pm.allocate().unwrap();
    pm.release_ref(r);
    assert_eq!(pm.allocate().err(), Some(NoPages));
}

#[test]
fn unlimited_always_allocates() {
    let mut pm = UnlimitedPageManager::new(4);
    for i in 0..10 {
        let (h, r) = pm.allocate().unwrap();
        assert_eq!(h.id.0, i);
        assert_eq!(r.id.0, i);
    }
    assert_eq!(pm.frames.slots.len(), 10);
}

#[test]
fn pool_never_exceeds_capacity() {
    let mut pm: BufferedPageManager<LruReplacementStrategy> = BufferedPageManager::new(2, 4);
    for _ in 0..6 {
        let (_h, r) = pm.allocate().unwrap();
        pm.release_ref(r);
        assert!(pm.pool.len() <= 2);
    }
    assert_eq!(pm.pool.len(), 2);
}
