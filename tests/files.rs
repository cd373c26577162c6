use ferrodb::fs::{bytes_to_read, fill_page, page_offset, FileId, FileManager, FileRef};
use ferrodb::lru::LruReplacementStrategy;
use ferrodb::strategy::NoPages;

const PAGE: usize = 8;

fn window(disk: &[u8], page: usize) -> &[u8] {
    let offset = page_offset(page, PAGE).unwrap();
    let n = bytes_to_read(disk.len() as u64, offset, PAGE);
    let start = offset as usize;
    if n == 0 {
        &[]
    } else {
        &disk[start..start + n]
    }
}

fn clean(
    fm: &mut FileManager<LruReplacementStrategy>,
    disk: &[u8],
    file: FileId,
    page: usize,
) -> (FileRef, bool) {
    match fm.clean_cached(file, page) {
        Some(r) => (r, false),
        None => (fm.load_clean(file, page, window(disk, page)).unwrap(), true),
    }
}

fn dirty(
    fm: &mut FileManager<LruReplacementStrategy>,
    disk: &[u8],
    file: FileId,
    page: usize,
) -> FileRef {
    match fm.dirty_cached(file, page) {
        Some(r) => r,
        None => fm.load_dirty(file, page, window(disk, page)).unwrap(),
    }
}

fn sync(
    fm: &mut FileManager<LruReplacementStrategy>,
    disk: &mut Vec<u8>,
    file: FileId,
    page: usize,
) {
    if let Some(bytes) = fm.pending(file, page) {
        let offset = page_offset(page, PAGE).unwrap() as usize;
        if disk.len() < offset + PAGE {
            disk.resize(offset + PAGE, 0);
        }
        disk[offset..offset + PAGE].copy_from_slice(&bytes);
        fm.finish_sync(file, page);
    }
}

#[test]
fn interning_is_stable_and_distinct() {
    let mut fm: FileManager<LruReplacementStrategy> = FileManager::new(4, PAGE);
    let a = fm.id("alpha");
    let b = fm.id("beta");
    assert_eq!(fm.id("alpha"), a);
    assert_eq!(fm.id("beta"), b);
    assert_ne!(a, b);
    assert_eq!(fm.names.len(), 2);
    assert_eq!(fm.paths[a.0], "./alpha");
}

#[test]
fn page_past_end_reads_zero() {
    assert_eq!(fill_page(&[], 4), vec![0, 0, 0, 0]);
    assert_eq!(bytes_to_read(10, 16, 8), 0);
    assert_eq!(bytes_to_read(16, 16, 8), 0);
    let disk = vec![5u8; 10];
    let mut fm: FileManager<LruReplacementStrategy> = FileManager::new(4, PAGE);
    let f = fm.id("t");
    let (r, _) = clean(&mut fm, &disk, f, 3);
    assert_eq!(fm.read(&r), vec![0u8; PAGE]);
}

#[test]
fn page_straddling_end_is_padded() {
    assert_eq!(fill_page(&[1, 2], 4), vec![1, 2, 0, 0]);
    assert_eq!(fill_page(&[1, 2, 3, 4, 5], 4), vec![1, 2, 3, 4]);
    assert_eq!(bytes_to_read(10, 8, 8), 2);
    assert_eq!(bytes_to_read(100, 0, 8), 8);
    let disk: Vec<u8> = (1..=10).collect();
    let mut fm: FileManager<LruReplacementStrategy> = FileManager::new(4, PAGE);
    let f = fm.id("t");
    let (r, _) = clean(&mut fm, &disk, f, 1);
    assert_eq!(fm.read(&r), vec![9, 10, 0, 0, 0, 0, 0, 0]);
}

#[test]
fn page_offsets() {
    assert_eq!(page_offset(3, 4096), Some(12288));
    assert_eq!(page_offset(0, 4096), Some(0));
    assert_eq!(page_offset(usize::MAX, 2), None);
}

#[test]
fn clean_reload_after_eviction() {
    let disk: Vec<u8> = (0..16).collect();
    let mut fm: FileManager<LruReplacementStrategy> = FileManager::new(1, PAGE);
    let f = fm.id("F");
    let (r0, loaded) = clean(&mut fm, &disk, f, 0);
    assert!(loaded);
    let first = fm.read(&r0);
    assert_eq!(first, (0..8).collect::<Vec<u8>>());
    fm.release(r0);
    let (r1, loaded) = clean(&mut fm, &disk, f, 1);
    assert!(loaded);
    assert_eq!(fm.read(&r1), (8..16).collect::<Vec<u8>>());
    fm.release(r1);
    assert!(fm.clean_cached(f, 0).is_none());
    let (again, loaded) = clean(&mut fm, &disk, f, 0);
    assert!(loaded);
    assert_eq!(fm.read(&again), first);
}

#[test]
fn clean_is_cached_while_valid() {
    let disk: Vec<u8> = (0..16).collect();
    let mut fm: FileManager<LruReplacementStrategy> = FileManager::new(2, PAGE);
    let f = fm.id("F");
    let (r0, _) = clean(&mut fm, &disk, f, 0);
    fm.release(r0);
    let (r0, loaded) = clean(&mut fm, &disk, f, 0);
    assert!(!loaded);
    assert!(!r0.1);
}

#[test]
fn write_then_sync_survives_restart() {
    let mut disk: Vec<u8> = Vec::new();
    {
        let mut fm: FileManager<LruReplacementStrategy> = FileManager::new(2, PAGE);
        let f = fm.id("F");
        let w = dirty(&mut fm, &disk, f, 2);
        assert!(w.1);
        fm.write(&w, vec![0xAA; PAGE]);
        fm.release(w);
        sync(&mut fm, &mut disk, f, 2);
    }
    assert_eq!(disk.len(), 3 * PAGE);
    assert_eq!(&disk[16..24], &[0xAA; PAGE]);
    let mut fm: FileManager<LruReplacementStrategy> = FileManager::new(2, PAGE);
    let f = fm.id("F");
    let (r, _) = clean(&mut fm, &disk, f, 2);
    assert_eq!(fm.read(&r), vec![0xAA; PAGE]);
}

#[test]
fn write_sync_then_clean_read() {
    let mut disk: Vec<u8> = vec![1; 16];
    let mut fm: FileManager<LruReplacementStrategy> = FileManager::new(3, PAGE);
    let f = fm.id("F");
    let (c, _) = clean(&mut fm, &disk, f, 1);
    assert_eq!(fm.read(&c), vec![1; PAGE]);
    let w = dirty(&mut fm, &disk, f, 1);
    let x: Vec<u8> = (20..28).collect();
    fm.write(&w, x.clone());
    fm.release(w);
    assert_eq!(fm.read(&c), vec![1; PAGE]);
    sync(&mut fm, &mut disk, f, 1);
    assert_eq!(fm.read(&c), x);
    assert_eq!(&disk[8..16], &x[..]);
    fm.release(c);
    let (c2, _) = clean(&mut fm, &disk, f, 1);
    assert_eq!(fm.read(&c2), x);
}

#[test]
fn sync_twice_is_sync_once() {
    let mut disk: Vec<u8> = Vec::new();
    let mut fm: FileManager<LruReplacementStrategy> = FileManager::new(2, PAGE);
    let f = fm.id("F");
    let w = dirty(&mut fm, &disk, f, 0);
    fm.write(&w, vec![3; PAGE]);
    fm.release(w);
    assert!(fm.has_dirty(f, 0));
    sync(&mut fm, &mut disk, f, 0);
    let after_once = disk.clone();
    assert!(!fm.has_dirty(f, 0));
    assert!(fm.pending(f, 0).is_none());
    fm.finish_sync(f, 0);
    sync(&mut fm, &mut disk, f, 0);
    assert_eq!(disk, after_once);
    assert!(!fm.has_dirty(f, 0));
}

#[test]
fn sync_without_entry_does_nothing() {
    let mut disk: Vec<u8> = Vec::new();
    let mut fm: FileManager<LruReplacementStrategy> = FileManager::new(2, PAGE);
    let f = fm.id("F");
    sync(&mut fm, &mut disk, f, 5);
    assert!(disk.is_empty());
    assert!(fm.entries.is_empty());
}

#[test]
fn dirty_page_is_never_evicted() {
    let disk: Vec<u8> = vec![0; 32];
    let mut fm: FileManager<LruReplacementStrategy> = FileManager::new(1, PAGE);
    let f = fm.id("F");
    let w = dirty(&mut fm, &disk, f, 0);
    fm.release(w);
    assert!(fm.clean_cached(f, 1).is_none());
    assert_eq!(fm.load_clean(f, 1, window(&disk, 1)).err(), Some(NoPages));
    let again = dirty(&mut fm, &disk, f, 0);
    assert!(fm.pages.frames.slots[again.0.id.0].ref_count >= 2);
}

#[test]
fn dirty_is_shared_until_sync() {
    let disk: Vec<u8> = vec![0; 8];
    let mut fm: FileManager<LruReplacementStrategy> = FileManager::new(2, PAGE);
    let f = fm.id("F");
    let a = dirty(&mut fm, &disk, f, 0);
    let b = dirty(&mut fm, &disk, f, 0);
    assert_eq!(a.0.id, b.0.id);
    fm.write(&a, vec![4; PAGE]);
    assert_eq!(fm.read(&b), vec![4; PAGE]);
}
