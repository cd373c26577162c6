//! The file manager: interns file names, and keeps for each `(file, page)` at most
//! one clean frame (the last image read from disk, evictable) and one dirty frame
//! (pinned until it is synced). Disk access stays with the caller: the manager says
//! which bytes to read or write and builds page images from what was read.
use vstd::prelude::*;

use crate::buffered::{frames_evolve, BufferedPageManager};
use crate::page::{Frame, Frames, PageHandle, PageId, PageRef};
use crate::strategy::{NoPages, ReplacementStrategy};

verus! {

/// Identifies an interned file name: its position among the names seen.
#[derive(Clone, Copy, Debug, PartialEq, Eq, Hash, Structural)]
pub struct FileId(pub usize);

pub type PageIndex = usize;

/// The cached frames of one `(file, page)`.
pub struct FileInner {
    pub clean: Option<PageHandle>,
    pub dirty: Option<(PageHandle, PageRef)>,
}

/// The cached frames of one page of one file.
pub struct Entry {
    pub file: FileId,
    pub page: PageIndex,
    pub inner: FileInner,
}

/// A reference to a page of a file; the flag says whether it may be written.
pub struct FileRef(pub PageRef, pub bool);

/// The frame referenced by a dirty slot.
pub open spec fn dirty_id(inner: FileInner) -> PageId {
    match inner.dirty {
        Some((h, r)) => r.id,
        None => PageId(0),
    }
}

/// The frame named by the handle of a dirty slot.
pub open spec fn dirty_handle_id(inner: FileInner) -> PageId {
    match inner.dirty {
        Some((h, r)) => h.id,
        None => PageId(0),
    }
}

/// The relative path under which a file of this name is kept.
pub uninterp spec fn relative_path(name: Seq<char>) -> Seq<char>;

/// Relies on camino: `Utf8PathBuf::from(".")` with `set_file_name(name)`, as a string;
/// the result depends on the name alone.
#[verifier::external_body]
fn path_of(name: &str) -> (r: String)
    ensures
        r@ == relative_path(name@),
{
    let mut path = camino::Utf8PathBuf::from(".");
    path.set_file_name(name);
    path.into_string()
}

/// Whether two strings hold the same characters.
pub fn same_text(a: &str, b: &str) -> (r: bool)
    ensures
        r == (a@ == b@),
{
    let n = a.unicode_len();
    if n != b.unicode_len() {
        return false;
    }
    let mut i: usize = 0;
    while i < n
        invariant
            n == a@.len() == b@.len(),
            i <= n,
            forall|k: int| 0 <= k < i ==> a@[k] == b@[k],
        decreases n - i,
    {
        if a.get_char(i) != b.get_char(i) {
            return false;
        }
        i += 1;
    }
    assert(a@ =~= b@);
    true
}

/// The page image of a page whose bytes on disk, from its offset, are `on_disk`:
/// those bytes up to one page, then zeros.
pub open spec fn page_image(on_disk: Seq<u8>, page_size: nat) -> Seq<u8> {
    Seq::new(page_size, |i: int| if i < on_disk.len() { on_disk[i] } else { 0u8 })
}

/// Builds a page image from the bytes read at the page's offset.
pub fn fill_page(on_disk: &[u8], page_size: usize) -> (r: Vec<u8>)
    ensures
        r@ == page_image(on_disk@, page_size as nat),
{
    let mut r: Vec<u8> = Vec::new();
    let mut i: usize = 0;
    while i < page_size
        invariant
            i <= page_size,
            r@ == page_image(on_disk@, page_size as nat).subrange(0, i as int),
        decreases page_size - i,
    {
        if i < on_disk.len() {
            r.push(on_disk[i]);
        } else {
            r.push(0u8);
        }
        i += 1;
        assert(r@ =~= page_image(on_disk@, page_size as nat).subrange(0, i as int));
    }
    assert(r@ =~= page_image(on_disk@, page_size as nat));
    r
}

/// How many bytes to read for a page at `offset` of a file of `size` bytes.
pub fn bytes_to_read(size: u64, offset: u64, page_size: usize) -> (r: usize)
    ensures
        offset >= size ==> r == 0,
        offset < size ==> r as int == if size - offset < page_size { size - offset } else {
            page_size as int
        },
{
    if offset < size {
        let rest = size - offset;
        if rest < page_size as u64 {
            rest as usize
        } else {
            page_size
        }
    } else {
        0
    }
}

/// The byte offset of a page, if it fits in 64 bits.
pub fn page_offset(page: PageIndex, page_size: usize) -> (r: Option<u64>)
    ensures
        r is Some <==> page * page_size <= u64::MAX,
        r is Some ==> r->0 == page * page_size,
{
    let p = page as u64;
    let s = page_size as u64;
    if s != 0 && p > u64::MAX / s {
        assert(page * page_size > u64::MAX) by (nonlinear_arith)
            requires
                s != 0,
                p > u64::MAX / s,
                p == page,
                s == page_size,
        ;
        None
    } else {
        assert(page * page_size <= u64::MAX) by (nonlinear_arith)
            requires
                s == 0 || p <= u64::MAX / s,
                p == page,
                s == page_size,
        ;
        Some(p * s)
    }
}

/// What a sync of `(file, page)` leaves: no dirty frame; nothing changed if there
/// was none; else a valid clean frame holds the synced bytes and a reclaimed one
/// is forgotten.
pub open spec fn synced<R: ReplacementStrategy>(
    before: FileManager<R>,
    after: FileManager<R>,
    file: FileId,
    page: PageIndex,
) -> bool {
    &&& after.dirty_of(file, page) is None
    &&& after.names == before.names
    &&& before.dirty_of(file, page) is None ==> after == before
    &&& before.dirty_of(file, page) is Some && before.clean_of(file, page) is Some ==> {
        let d = before.dirty_of(file, page)->0;
        let c = before.clean_of(file, page)->0;
        &&& (0 < before.frames().frame(c).ref_count < usize::MAX ==> after.clean_of(file, page)
            == Some(c) && after.frames().bytes(c) == before.frames().bytes(d))
        &&& (before.frames().frame(c).ref_count == 0 ==> after.clean_of(file, page) is None)
    }
}

/// A page that lies past the end of its file reads as zeros.
pub proof fn lemma_past_end_reads_zero(page_size: nat)
    ensures
        page_image(Seq::empty(), page_size) == Seq::new(page_size, |i: int| 0u8),
{
    assert(page_image(Seq::empty(), page_size) =~= Seq::new(page_size, |i: int| 0u8));
}

/// A page that straddles the end of its file reads as the file's bytes, then zeros
/// up to the page size.
pub proof fn lemma_straddling_page(on_disk: Seq<u8>, page_size: nat)
    requires
        on_disk.len() <= page_size,
    ensures
        page_image(on_disk, page_size) == on_disk + Seq::new(
            (page_size - on_disk.len()) as nat,
            |i: int| 0u8,
        ),
{
    assert(page_image(on_disk, page_size) =~= on_disk + Seq::new(
        (page_size - on_disk.len()) as nat,
        |i: int| 0u8,
    ));
}

/// A full page written to disk reads back unchanged.
pub proof fn lemma_full_page_reads_back(bytes: Seq<u8>, page_size: nat)
    requires
        bytes.len() == page_size,
    ensures
        page_image(bytes, page_size) == bytes,
{
    assert(page_image(bytes, page_size) =~= bytes);
}

/// Syncing twice with nothing written in between leaves what syncing once left.
pub proof fn lemma_sync_idempotent<R: ReplacementStrategy>(
    a: FileManager<R>,
    b: FileManager<R>,
    c: FileManager<R>,
    file: FileId,
    page: PageIndex,
)
    requires
        synced(a, b, file, page),
        synced(b, c, file, page),
    ensures
        c == b,
{
}

/// After a sync, a clean frame that was still valid holds what was written to the
/// dirty frame.
pub proof fn lemma_sync_refreshes_clean<R: ReplacementStrategy>(
    a: FileManager<R>,
    b: FileManager<R>,
    file: FileId,
    page: PageIndex,
    written: Seq<u8>,
)
    requires
        synced(a, b, file, page),
        a.dirty_of(file, page) is Some,
        a.frames().bytes(a.dirty_of(file, page)->0) == written,
        a.clean_of(file, page) is Some,
        0 < a.frames().frame(a.clean_of(file, page)->0).ref_count < usize::MAX,
    ensures
        b.clean_of(file, page) == a.clean_of(file, page),
        b.frames().bytes(b.clean_of(file, page)->0) == written,
{
}

/// Interned names, their paths, the cached frames of each page, and the pool.
pub struct FileManager<R> {
    pub names: Vec<String>,
    pub paths: Vec<String>,
    pub entries: Vec<Entry>,
    pub pages: BufferedPageManager<R>,
}

/// The characters of each name.
pub open spec fn texts(names: Seq<String>) -> Seq<Seq<char>> {
    names.map_values(|s: String| s@)
}

impl<R: ReplacementStrategy> FileManager<R> {
    pub open spec fn frames(&self) -> Frames {
        self.pages.frames
    }

    /// The id that the name has, or would get now.
    pub open spec fn id_for(&self, name: Seq<char>) -> FileId {
        if texts(self.names@).contains(name) {
            FileId(texts(self.names@).index_of(name) as usize)
        } else {
            FileId(self.names@.len() as usize)
        }
    }

    pub open spec fn has_entry(&self, file: FileId, page: PageIndex) -> bool {
        exists|i: int|
            0 <= i < self.entries@.len() && #[trigger] self.entries@[i].file == file
                && self.entries@[i].page == page
    }

    pub open spec fn slot(&self, file: FileId, page: PageIndex) -> int {
        choose|i: int|
            0 <= i < self.entries@.len() && #[trigger] self.entries@[i].file == file
                && self.entries@[i].page == page
    }

    /// The dirty frame of a page, if one is held.
    pub open spec fn dirty_of(&self, file: FileId, page: PageIndex) -> Option<PageId> {
        if self.has_entry(file, page) && self.entries@[self.slot(file, page)].inner.dirty is Some {
            Some(dirty_id(self.entries@[self.slot(file, page)].inner))
        } else {
            None
        }
    }

    /// The clean handle of a page, if one is held.
    pub open spec fn clean_of(&self, file: FileId, page: PageIndex) -> Option<PageId> {
        if self.has_entry(file, page) && self.entries@[self.slot(file, page)].inner.clean is Some {
            Some(self.entries@[self.slot(file, page)].inner.clean->0.id)
        } else {
            None
        }
    }

    /// Some dirty slot keeps a reference to the frame `id`.
    pub open spec fn holds_dirty(&self, id: PageId) -> bool {
        exists|i: int|
            0 <= i < self.entries@.len() && (#[trigger] self.entries@[i]).inner.dirty is Some
                && dirty_id(self.entries@[i].inner) == id
    }

    pub open spec fn entry_ok(&self, e: Entry) -> bool {
        &&& (e.inner.clean is Some ==> self.frames().contains(e.inner.clean->0.id))
        &&& (e.inner.dirty is Some ==> {
            &&& dirty_handle_id(e.inner) == dirty_id(e.inner)
            &&& self.frames().pinned(dirty_id(e.inner))
        })
    }

    pub open spec fn wf(&self) -> bool {
        &&& self.pages.wf()
        &&& texts(self.names@).no_duplicates()
        &&& self.paths@.len() == self.names@.len()
        &&& forall|i: int|
            0 <= i < self.names@.len() ==> (#[trigger] self.paths@[i])@ == relative_path(
                self.names@[i]@,
            )
        &&& forall|i: int, j: int|
            0 <= i < j < self.entries@.len() ==> !(#[trigger] self.entries@[i].file
                == #[trigger] self.entries@[j].file && self.entries@[i].page
                == self.entries@[j].page)
        &&& forall|i: int| 0 <= i < self.entries@.len() ==> self.entry_ok(#[trigger] self.entries@[i])
        &&& forall|i: int, j: int|
            0 <= i < j < self.entries@.len() && (#[trigger] self.entries@[i]).inner.dirty is Some
                && (#[trigger] self.entries@[j]).inner.dirty is Some
                ==> dirty_id(self.entries@[i].inner) != dirty_id(self.entries@[j].inner)
    }

    /// A file manager over a pool of at most `limit` pages of `page_size` bytes.
    pub fn new(limit: usize, page_size: usize) -> (r: Self)
        requires
            page_size > 0,
        ensures
            r.wf(),
            r.names@.len() == 0,
            r.entries@.len() == 0,
            r.pages.limit == limit,
            r.frames().page_size == page_size,
    {
        let r = FileManager {
            names: Vec::new(),
            paths: Vec::new(),
            entries: Vec::new(),
            pages: BufferedPageManager::new(limit, page_size),
        };
        assert(texts(r.names@) =~= Seq::<Seq<char>>::empty());
        r
    }

    /// The id of a name, minted on first sight. Equal names get equal ids and
    /// distinct names distinct ones.
    pub fn id(&mut self, name: &str) -> (r: FileId)
        requires
            old(self).wf(),
        ensures
            final(self).wf(),
            r == old(self).id_for(name@),
            final(self).pages == old(self).pages,
            final(self).entries == old(self).entries,
            texts(old(self).names@).contains(name@) ==> final(self).names == old(self).names,
            !texts(old(self).names@).contains(name@) ==> texts(final(self).names@) == texts(
                old(self).names@,
            ).push(name@),
            r.0 < final(self).names@.len(),
            final(self).names@[r.0 as int]@ == name@,
            final(self).paths@[r.0 as int]@ == relative_path(name@),
    {
        let mut i: usize = 0;
        while i < self.names.len()
            invariant
                i <= self.names@.len(),
                *self == *old(self),
                old(self).wf(),
                forall|k: int| 0 <= k < i ==> self.names@[k]@ != name@,
            decreases self.names@.len() - i,
        {
            if same_text(self.names[i].as_str(), name) {
                proof {
                    assert(texts(self.names@)[i as int] == name@);
                    texts(self.names@).index_of_first_ensures(name@);
                    assert(texts(self.names@).contains(name@));
                    let j = texts(self.names@).index_of(name@);
                    assert(texts(self.names@)[j] == name@);
                    assert(j == i) by {
                        assert(texts(self.names@).no_duplicates());
                    }
                }
                return FileId(i);
            }
            i += 1;
        }
        proof {
            assert(!texts(self.names@).contains(name@)) by {
                if texts(self.names@).contains(name@) {
                    let j = choose|j: int| 0 <= j < texts(self.names@).len() && texts(self.names@)[j] == name@;
                    assert(self.names@[j]@ == name@);
                }
            }
        }
        let id = FileId(self.names.len());
        let ghost before = texts(self.names@);
        let path = path_of(name);
        self.names.push(name.to_string());
        self.paths.push(path);
        assert(texts(self.names@) =~= before.push(name@));
        id
    }
}

impl<R: ReplacementStrategy> FileManager<R> {
    /// Frames that only grew, and kept every dirty frame pinned, keep the
    /// manager well formed.
    proof fn lemma_frames_kept(old_fm: Self, new_fm: Self)
        requires
            old_fm.wf(),
            new_fm.pages.wf(),
            new_fm.names == old_fm.names,
            new_fm.paths == old_fm.paths,
            new_fm.entries == old_fm.entries,
            new_fm.frames().slots@.len() >= old_fm.frames().slots@.len(),
            forall|id: PageId| old_fm.holds_dirty(id) ==> #[trigger] new_fm.frames().pinned(id),
        ensures
            new_fm.wf(),
    {
        assert forall|i: int| 0 <= i < new_fm.entries@.len() implies new_fm.entry_ok(
            #[trigger] new_fm.entries@[i],
        ) by {
            assert(old_fm.entry_ok(old_fm.entries@[i]));
            if new_fm.entries@[i].inner.dirty is Some {
                assert(old_fm.holds_dirty(dirty_id(new_fm.entries@[i].inner)));
            }
        }
    }

    /// Frames that evolved under an allocation keep every dirty frame pinned.
    proof fn lemma_allocation_keeps_dirty(old_fm: Self, new_fm: Self)
        requires
            old_fm.wf(),
            frames_evolve(old_fm.frames(), new_fm.frames()),
        ensures
            forall|id: PageId| old_fm.holds_dirty(id) ==> #[trigger] new_fm.frames().pinned(id),
    {
        assert forall|id: PageId| old_fm.holds_dirty(id) implies #[trigger] new_fm.frames().pinned(id) by {
            let i = choose|i: int|
                0 <= i < old_fm.entries@.len() && (#[trigger] old_fm.entries@[i]).inner.dirty is Some
                    && dirty_id(old_fm.entries@[i].inner) == id;
            assert(old_fm.entry_ok(old_fm.entries@[i]));
            assert(new_fm.frames().slots@[id.0 as int] == old_fm.frames().slots@[id.0 as int]);
        }
    }

    /// Replacing the entry at `i` by one for the same key, whose frames are fine and
    /// whose dirty frame no other entry holds, keeps the manager well formed.
    proof fn lemma_set_entry(old_fm: Self, new_fm: Self, i: int)
        requires
            old_fm.wf(),
            new_fm.pages == old_fm.pages,
            new_fm.names == old_fm.names,
            new_fm.paths == old_fm.paths,
            0 <= i < old_fm.entries@.len(),
            new_fm.entries@ == old_fm.entries@.update(i, new_fm.entries@[i]),
            new_fm.entries@[i].file == old_fm.entries@[i].file,
            new_fm.entries@[i].page == old_fm.entries@[i].page,
            new_fm.entry_ok(new_fm.entries@[i]),
            new_fm.entries@[i].inner.dirty is Some ==> forall|k: int|
                0 <= k < old_fm.entries@.len() && k != i && (#[trigger] old_fm.entries@[k]).inner.dirty is Some
                    ==> dirty_id(old_fm.entries@[k].inner) != dirty_id(new_fm.entries@[i].inner),
        ensures
            new_fm.wf(),
            new_fm.slot(new_fm.entries@[i].file, new_fm.entries@[i].page) == i,
            forall|f: FileId, p: PageIndex|
                #![trigger new_fm.dirty_of(f, p)]
                !(f == new_fm.entries@[i].file && p == new_fm.entries@[i].page) ==> new_fm.dirty_of(f, p)
                    == old_fm.dirty_of(f, p) && new_fm.clean_of(f, p) == old_fm.clean_of(f, p),
    {
        let f0 = new_fm.entries@[i].file;
        let p0 = new_fm.entries@[i].page;
        assert(new_fm.has_entry(f0, p0));
        let j = new_fm.slot(f0, p0);
        if j != i {
            assert(old_fm.entries@[j] == new_fm.entries@[j]);
            assert(old_fm.entries@[j].file == old_fm.entries@[i].file);
        }
        assert forall|k: int| 0 <= k < new_fm.entries@.len() implies new_fm.entry_ok(
            #[trigger] new_fm.entries@[k],
        ) by {
            if k != i {
                assert(old_fm.entry_ok(old_fm.entries@[k]));
            }
        }
        assert forall|a: int, b: int|
            0 <= a < b < new_fm.entries@.len() implies !(#[trigger] new_fm.entries@[a].file
            == #[trigger] new_fm.entries@[b].file && new_fm.entries@[a].page == new_fm.entries@[b].page) by {
            assert(old_fm.entries@[a].file == new_fm.entries@[a].file);
            assert(old_fm.entries@[b].file == new_fm.entries@[b].file);
        }
        assert forall|a: int, b: int|
            0 <= a < b < new_fm.entries@.len() && (#[trigger] new_fm.entries@[a]).inner.dirty is Some
                && (#[trigger] new_fm.entries@[b]).inner.dirty is Some implies dirty_id(
            new_fm.entries@[a].inner,
        ) != dirty_id(new_fm.entries@[b].inner) by {
            if a != i && b != i {
                assert(old_fm.entries@[a] == new_fm.entries@[a]);
                assert(old_fm.entries@[b] == new_fm.entries@[b]);
            } else if a == i {
                assert(old_fm.entries@[b] == new_fm.entries@[b]);
            } else {
                assert(old_fm.entries@[a] == new_fm.entries@[a]);
            }
        }
        assert forall|f: FileId, p: PageIndex|
            #![trigger new_fm.dirty_of(f, p)]
            !(f == f0 && p == p0) implies new_fm.dirty_of(f, p) == old_fm.dirty_of(f, p)
                && new_fm.clean_of(f, p) == old_fm.clean_of(f, p) by {
            if new_fm.has_entry(f, p) {
                let k = new_fm.slot(f, p);
                assert(k != i);
                assert(old_fm.entries@[k] == new_fm.entries@[k]);
                assert(old_fm.has_entry(f, p));
                let k2 = old_fm.slot(f, p);
                assert(k2 != i);
                assert(old_fm.entries@[k2] == new_fm.entries@[k2]);
            }
            if old_fm.has_entry(f, p) {
                let k2 = old_fm.slot(f, p);
                assert(k2 != i);
                assert(old_fm.entries@[k2] == new_fm.entries@[k2]);
            }
        }
    }

    /// A dirty frame stays pinned: invalidating it fails with `StillPinned`.
    pub proof fn lemma_dirty_frame_pinned(&self, file: FileId, page: PageIndex)
        requires
            self.wf(),
            self.dirty_of(file, page) is Some,
        ensures
            self.frames().frame(self.dirty_of(file, page)->0).ref_count > 1,
            !self.frames().evictable(self.dirty_of(file, page)->0),
    {
        assert(self.entry_ok(self.entries@[self.slot(file, page)]));
    }

    /// The id an interned name has is its own: the name at position `k` gets id `k`,
    /// and no other name does.
    pub proof fn lemma_interning(&self, k: int, name: Seq<char>)
        requires
            self.wf(),
            0 <= k < self.names@.len() <= usize::MAX,
        ensures
            (self.id_for(name) == FileId(k as usize)) <==> self.names@[k]@ == name,
    {
        let t = texts(self.names@);
        assert(t[k] == self.names@[k]@);
        if self.names@[k]@ == name {
            assert(t.contains(name));
        }
        if t.contains(name) {
            let j = t.index_of(name);
            assert(0 <= j < t.len() && t[j] == name);
            if self.names@[k]@ == name {
                assert(j == k);
            }
            if self.id_for(name) == FileId(k as usize) {
                assert(j == k);
            }
        }
    }

    /// Where the entry of `(file, page)` stands, if there is one.
    fn find_entry(&self, file: FileId, page: PageIndex) -> (r: Option<usize>)
        requires
            self.wf(),
        ensures
            r is Some <==> self.has_entry(file, page),
            r is Some ==> r->0 == self.slot(file, page) && r->0 < self.entries@.len(),
    {
        let mut i: usize = 0;
        while i < self.entries.len()
            invariant
                i <= self.entries@.len(),
                self.wf(),
                forall|k: int|
                    0 <= k < i ==> !(#[trigger] self.entries@[k].file == file && self.entries@[k].page
                        == page),
            decreases self.entries@.len() - i,
        {
            if self.entries[i].file == file && self.entries[i].page == page {
                proof {
                    let j = self.slot(file, page);
                    assert(self.entries@[j].file == file);
                    if j < i {
                    } else if j > i {
                        assert(self.entries@[j].file == self.entries@[i as int].file);
                    }
                }
                return Some(i);
            }
            i += 1;
        }
        None
    }

    /// The entry of `(file, page)`, made empty if there was none.
    fn entry(&mut self, file: FileId, page: PageIndex) -> (r: usize)
        requires
            old(self).wf(),
        ensures
            final(self).wf(),
            final(self).has_entry(file, page),
            r == final(self).slot(file, page),
            r < final(self).entries@.len(),
            final(self).pages == old(self).pages,
            final(self).names == old(self).names,
            final(self).paths == old(self).paths,
            old(self).has_entry(file, page) ==> final(self).entries == old(self).entries,
            !old(self).has_entry(file, page) ==> final(self).entries@ == old(self).entries@.push(
                Entry { file, page, inner: FileInner { clean: None, dirty: None } },
            ),
            forall|f: FileId, p: PageIndex|
                #![trigger final(self).dirty_of(f, p)]
                final(self).dirty_of(f, p) == old(self).dirty_of(f, p) && final(self).clean_of(f, p)
                    == old(self).clean_of(f, p),
            forall|id: PageId| #[trigger] final(self).holds_dirty(id) == old(self).holds_dirty(id),
    {
        match self.find_entry(file, page) {
            Some(i) => i,
            None => {
                let n = self.entries.len();
                self.entries.push(Entry { file, page, inner: FileInner { clean: None, dirty: None } });
                proof {
                    assert(self.entries@[n as int].file == file);
                    let j = self.slot(file, page);
                    if j < n {
                        assert(old(self).entries@[j] == self.entries@[j]);
                        assert(old(self).has_entry(file, page));
                    }
                    assert forall|f: FileId, p: PageIndex|
                        #![trigger self.dirty_of(f, p)]
                        self.dirty_of(f, p) == old(self).dirty_of(f, p) && self.clean_of(f, p)
                            == old(self).clean_of(f, p) by {
                        if self.has_entry(f, p) {
                            let k = self.slot(f, p);
                            if k < n {
                                assert(old(self).entries@[k] == self.entries@[k]);
                                assert(old(self).has_entry(f, p));
                                let k2 = old(self).slot(f, p);
                                assert(self.entries@[k2].file == f);
                            }
                        }
                        if old(self).has_entry(f, p) {
                            let k2 = old(self).slot(f, p);
                            assert(self.entries@[k2].file == f);
                        }
                    }
                    assert forall|id: PageId| #[trigger] self.holds_dirty(id) == old(self).holds_dirty(id) by {
                        if old(self).holds_dirty(id) {
                            let k = choose|k: int|
                                0 <= k < old(self).entries@.len() && (#[trigger] old(self).entries@[k]).inner.dirty is Some
                                    && dirty_id(old(self).entries@[k].inner) == id;
                            assert(self.entries@[k] == old(self).entries@[k]);
                        }
                        if self.holds_dirty(id) {
                            let k = choose|k: int|
                                0 <= k < self.entries@.len() && (#[trigger] self.entries@[k]).inner.dirty is Some
                                    && dirty_id(self.entries@[k].inner) == id;
                            assert(self.entries@[k] == old(self).entries@[k]);
                        }
                    }
                }
                n
            },
        }
    }
}

impl<R: ReplacementStrategy> FileManager<R> {
    /// Pins the clean frame of a page, if one is cached and still valid.
    pub fn clean_cached(&mut self, file: FileId, page: PageIndex) -> (r: Option<FileRef>)
        requires
            old(self).wf(),
        ensures
            final(self).wf(),
            final(self).entries == old(self).entries,
            final(self).names == old(self).names,
            r is Some <==> old(self).clean_of(file, page) is Some && 0 < old(self).frames().frame(
                old(self).clean_of(file, page)->0,
            ).ref_count < usize::MAX,
            r is None ==> final(self).pages == old(self).pages,
            r is Some ==> {
                let id = old(self).clean_of(file, page)->0;
                &&& (r->0).0.id == id
                &&& !(r->0).1
                &&& final(self).frames().slots@ == old(self).frames().with_refs(
                    id,
                    (old(self).frames().frame(id).ref_count + 1) as usize,
                )
                &&& final(self).frames().page_size == old(self).frames().page_size
            },
    {
        let i = match self.find_entry(file, page) {
            Some(i) => i,
            None => return None,
        };
        let id = match &self.entries[i].inner.clean {
            Some(h) => h.id,
            None => return None,
        };
        assert(self.entry_ok(self.entries@[i as int]));
        let count = self.pages.frames.slots[id.0].ref_count;
        if count == 0 || count == usize::MAX {
            return None;
        }
        let handle = PageHandle { id };
        match self.pages.pin(&handle) {
            Ok(page_ref) => {
                proof {
                    Self::lemma_frames_kept(*old(self), *self);
                }
                Some(FileRef(page_ref, false))
            },
            Err(_) => None,
        }
    }

    /// Caches a page read from disk as the clean frame of `(file, page)` and pins
    /// it. `on_disk` holds the file's bytes from the page's offset, at most a page
    /// of them; the rest of the page reads as zeros.
    pub fn load_clean(&mut self, file: FileId, page: PageIndex, on_disk: &[u8]) -> (r: Result<FileRef, NoPages>)
        requires
            old(self).wf(),
            old(self).frames().slots@.len() < usize::MAX,
        ensures
            final(self).wf(),
            final(self).names == old(self).names,
            final(self).frames().page_size == old(self).frames().page_size,
            r is Err ==> final(self).frames().slots@ == old(self).frames().slots@,
            r is Err <==> old(self).pages.pool@.len() >= old(self).pages.limit && forall|j: int|
                0 <= j < old(self).pages.strat.candidates().len() ==> !old(self).frames().evictable(
                    #[trigger] old(self).pages.strat.candidates()[j],
                ),
            r is Ok ==> {
                let id = r->Ok_0.0.id;
                &&& id == PageId(old(self).frames().slots@.len() as usize)
                &&& !r->Ok_0.1
                &&& final(self).frames().bytes(id) == page_image(on_disk@, old(self).frames().page_size as nat)
                &&& final(self).frames().pinned(id)
                &&& final(self).clean_of(file, page) == Some(id)
                &&& final(self).dirty_of(file, page) == old(self).dirty_of(file, page)
            },
    {
        let (handle, page_ref) = match self.pages.allocate() {
            Ok(pair) => pair,
            Err(e) => return Err(e),
        };
        proof {
            Self::lemma_allocation_keeps_dirty(*old(self), *self);
            Self::lemma_frames_kept(*old(self), *self);
        }
        let image = fill_page(on_disk, self.pages.frames.page_size);
        let ghost before_fill = *self;
        self.pages.fill(&page_ref, image);
        proof {
            assert forall|id: PageId| before_fill.holds_dirty(id) implies #[trigger] self.frames().pinned(id) by {
                let k = choose|k: int|
                    0 <= k < before_fill.entries@.len() && (#[trigger] before_fill.entries@[k]).inner.dirty is Some
                        && dirty_id(before_fill.entries@[k].inner) == id;
                assert(before_fill.entry_ok(before_fill.entries@[k]));
            }
            Self::lemma_frames_kept(before_fill, *self);
        }
        let i = self.entry(file, page);
        let old_clean = match &self.entries[i].inner.clean {
            Some(h) => Some(h.id),
            None => None,
        };
        let new_id = handle.id;
        let ghost before_set = *self;
        self.entries[i].inner.clean = Some(handle);
        proof {
            assert(self.entries@ =~= before_set.entries@.update(i as int, self.entries@[i as int]));
            assert(before_set.entry_ok(before_set.entries@[i as int]));
            Self::lemma_set_entry(before_set, *self, i as int);
        }
        match old_clean {
            Some(old_id) => {
                assert(self.entry_ok(before_set.entries@[i as int]));
                let refs = self.pages.frames.slots[old_id.0].ref_count;
                let owners = self.pages.frames.slots[old_id.0].handle_count;
                if refs == 0 && owners >= 1 {
                    let ghost before_release = *self;
                    self.pages.release_handle(PageHandle { id: old_id });
                    proof {
                        assert forall|id: PageId| before_release.holds_dirty(id) implies #[trigger] self.frames().pinned(id) by {
                            let k = choose|k: int|
                                0 <= k < before_release.entries@.len() && (#[trigger] before_release.entries@[k]).inner.dirty is Some
                                    && dirty_id(before_release.entries@[k].inner) == id;
                            assert(before_release.entry_ok(before_release.entries@[k]));
                        }
                        Self::lemma_frames_kept(before_release, *self);
                    }
                }
            },
            None => {},
        }
        Ok(FileRef(page_ref, false))
    }
}

impl<R: ReplacementStrategy> FileManager<R> {
    /// Whether `(file, page)` holds a dirty frame.
    pub fn has_dirty(&self, file: FileId, page: PageIndex) -> (r: bool)
        requires
            self.wf(),
        ensures
            r == self.dirty_of(file, page) is Some,
    {
        match self.find_entry(file, page) {
            Some(i) => self.entries[i].inner.dirty.is_some(),
            None => false,
        }
    }

    /// Another reference to the dirty frame of a page, if one is held.
    pub fn dirty_cached(&mut self, file: FileId, page: PageIndex) -> (r: Option<FileRef>)
        requires
            old(self).wf(),
        ensures
            final(self).wf(),
            final(self).entries == old(self).entries,
            final(self).names == old(self).names,
            r is Some <==> old(self).dirty_of(file, page) is Some && old(self).frames().frame(
                old(self).dirty_of(file, page)->0,
            ).ref_count < usize::MAX,
            r is None ==> final(self).pages == old(self).pages,
            r is Some ==> {
                let id = old(self).dirty_of(file, page)->0;
                &&& (r->0).0.id == id
                &&& (r->0).1
                &&& final(self).frames().slots@ == old(self).frames().with_refs(
                    id,
                    (old(self).frames().frame(id).ref_count + 1) as usize,
                )
                &&& final(self).frames().page_size == old(self).frames().page_size
            },
    {
        let i = match self.find_entry(file, page) {
            Some(i) => i,
            None => return None,
        };
        let id = match &self.entries[i].inner.dirty {
            Some((h, r)) => r.id,
            None => return None,
        };
        assert(self.entry_ok(self.entries@[i as int]));
        let count = self.pages.frames.slots[id.0].ref_count;
        if count == usize::MAX {
            return None;
        }
        let c = self.pages.clone_ref(&PageRef { id });
        proof {
            Self::lemma_frames_kept(*old(self), *self);
        }
        Some(FileRef(c, true))
    }

    /// Loads a page from disk as the dirty frame of `(file, page)`; the slot keeps
    /// one reference for as long as it holds the frame. `on_disk` holds the file's
    /// bytes from the page's offset, at most a page of them.
    pub fn load_dirty(&mut self, file: FileId, page: PageIndex, on_disk: &[u8]) -> (r: Result<FileRef, NoPages>)
        requires
            old(self).wf(),
            old(self).frames().slots@.len() < usize::MAX,
            old(self).dirty_of(file, page) is None,
        ensures
            final(self).wf(),
            final(self).names == old(self).names,
            final(self).frames().page_size == old(self).frames().page_size,
            r is Err ==> final(self).frames().slots@ == old(self).frames().slots@,
            r is Err <==> old(self).pages.pool@.len() >= old(self).pages.limit && forall|j: int|
                0 <= j < old(self).pages.strat.candidates().len() ==> !old(self).frames().evictable(
                    #[trigger] old(self).pages.strat.candidates()[j],
                ),
            r is Ok ==> {
                let id = r->Ok_0.0.id;
                &&& id == PageId(old(self).frames().slots@.len() as usize)
                &&& r->Ok_0.1
                &&& final(self).frames().bytes(id) == page_image(on_disk@, old(self).frames().page_size as nat)
                &&& final(self).frames().frame(id).ref_count == 3
                &&& final(self).dirty_of(file, page) == Some(id)
                &&& final(self).clean_of(file, page) == old(self).clean_of(file, page)
            },
    {
        let (handle, page_ref) = match self.pages.allocate() {
            Ok(pair) => pair,
            Err(e) => return Err(e),
        };
        proof {
            Self::lemma_allocation_keeps_dirty(*old(self), *self);
            Self::lemma_frames_kept(*old(self), *self);
        }
        let image = fill_page(on_disk, self.pages.frames.page_size);
        let ghost before_fill = *self;
        self.pages.fill(&page_ref, image);
        let c = self.pages.clone_ref(&page_ref);
        proof {
            assert forall|id: PageId| before_fill.holds_dirty(id) implies #[trigger] self.frames().pinned(id) by {
                let k = choose|k: int|
                    0 <= k < before_fill.entries@.len() && (#[trigger] before_fill.entries@[k]).inner.dirty is Some
                        && dirty_id(before_fill.entries@[k].inner) == id;
                assert(before_fill.entry_ok(before_fill.entries@[k]));
            }
            Self::lemma_frames_kept(before_fill, *self);
        }
        let i = self.entry(file, page);
        let ghost before_set = *self;
        let ghost new_id = page_ref.id;
        self.entries[i].inner.dirty = Some((handle, page_ref));
        proof {
            assert(self.entries@ =~= before_set.entries@.update(i as int, self.entries@[i as int]));
            assert(before_set.entry_ok(before_set.entries@[i as int]));
            assert forall|k: int|
                0 <= k < before_set.entries@.len() && k != i && (#[trigger] before_set.entries@[k]).inner.dirty is Some
                    implies dirty_id(before_set.entries@[k].inner) != new_id by {
                assert(before_set.entry_ok(before_set.entries@[k]));
                assert(old(self).holds_dirty(dirty_id(before_set.entries@[k].inner)));
                let k2 = choose|k2: int|
                    0 <= k2 < old(self).entries@.len() && (#[trigger] old(self).entries@[k2]).inner.dirty is Some
                        && dirty_id(old(self).entries@[k2].inner) == dirty_id(before_set.entries@[k].inner);
                assert(old(self).entry_ok(old(self).entries@[k2]));
            }
            Self::lemma_set_entry(before_set, *self, i as int);
        }
        Ok(FileRef(c, true))
    }

    /// Keeps the manager well formed across a change of frames that keeps every
    /// dirty frame, but possibly `spared`, as it was.
    proof fn lemma_dirty_frames_same(before: Self, after: Self, spared: Option<PageId>)
        requires
            before.wf(),
            after.pages.wf(),
            after.names == before.names,
            after.paths == before.paths,
            after.entries == before.entries,
            after.frames().slots@.len() == before.frames().slots@.len(),
            forall|k: int|
                0 <= k < before.frames().slots@.len() && (spared is None || k != (spared->0).0) ==> #[trigger] after.frames().slots@[k].ref_count
                    == before.frames().slots@[k].ref_count,
            spared is Some ==> !before.holds_dirty(spared->0),
        ensures
            after.wf(),
    {
        assert forall|id: PageId| before.holds_dirty(id) implies #[trigger] after.frames().pinned(id) by {
            let k = choose|k: int|
                0 <= k < before.entries@.len() && (#[trigger] before.entries@[k]).inner.dirty is Some
                    && dirty_id(before.entries@[k].inner) == id;
            assert(before.entry_ok(before.entries@[k]));
            assert(after.frames().slots@[id.0 as int].ref_count == before.frames().slots@[id.0 as int].ref_count);
        }
        Self::lemma_frames_kept(before, after);
    }

    /// Reads the page behind a file reference; the strategy learns of the read.
    pub fn read(&mut self, fr: &FileRef) -> (b: Vec<u8>)
        requires
            old(self).wf(),
            old(self).frames().pinned(fr.0.id),
        ensures
            final(self).wf(),
            b@ == old(self).frames().bytes(fr.0.id),
            final(self).frames() == old(self).frames(),
            final(self).entries == old(self).entries,
            final(self).names == old(self).names,
    {
        let b = self.pages.read(&fr.0);
        proof {
            Self::lemma_dirty_frames_same(*old(self), *self, None);
        }
        b
    }

    /// Replaces the page behind a writable file reference.
    pub fn write(&mut self, fr: &FileRef, contents: Vec<u8>)
        requires
            old(self).wf(),
            old(self).frames().pinned(fr.0.id),
            fr.1,
            contents@.len() == old(self).frames().page_size,
        ensures
            final(self).wf(),
            final(self).frames().bytes(fr.0.id) == contents@,
            final(self).frames().page_size == old(self).frames().page_size,
            final(self).frames().slots@.len() == old(self).frames().slots@.len(),
            forall|k: int|
                0 <= k < old(self).frames().slots@.len() && k != fr.0.id.0 ==> #[trigger] final(self).frames().slots@[k]
                    == old(self).frames().slots@[k],
            final(self).frames().frame(fr.0.id).ref_count == old(self).frames().frame(fr.0.id).ref_count,
            final(self).entries == old(self).entries,
            final(self).names == old(self).names,
    {
        let ghost c = contents@;
        self.pages.write(&fr.0, contents);
        proof {
            Self::lemma_dirty_frames_same(*old(self), *self, None);
        }
    }

    /// Drops a file reference. A dirty slot keeps its own reference, which this
    /// one is not.
    pub fn release(&mut self, fr: FileRef)
        requires
            old(self).wf(),
            old(self).frames().pinned(fr.0.id),
            old(self).holds_dirty(fr.0.id) ==> old(self).frames().frame(fr.0.id).ref_count >= 3,
        ensures
            final(self).wf(),
            final(self).frames().slots@ == old(self).frames().with_refs(
                fr.0.id,
                (old(self).frames().frame(fr.0.id).ref_count - 1) as usize,
            ),
            final(self).entries == old(self).entries,
            final(self).names == old(self).names,
    {
        let ghost id = fr.0.id;
        self.pages.release_ref(fr.0);
        proof {
            assert forall|d: PageId| old(self).holds_dirty(d) implies #[trigger] self.frames().pinned(d) by {
                let k = choose|k: int|
                    0 <= k < old(self).entries@.len() && (#[trigger] old(self).entries@[k]).inner.dirty is Some
                        && dirty_id(old(self).entries@[k].inner) == d;
                assert(old(self).entry_ok(old(self).entries@[k]));
            }
            Self::lemma_frames_kept(*old(self), *self);
        }
    }

    /// After the bytes of the dirty frame of `(file, page)` reached the disk: drops
    /// the dirty frame and brings a still valid clean frame up to date with it; a
    /// clean handle whose frame was reclaimed is forgotten.
    pub fn finish_sync(&mut self, file: FileId, page: PageIndex)
        requires
            old(self).wf(),
        ensures
            final(self).wf(),
            synced(*old(self), *final(self), file, page),
    {
        let i = match self.find_entry(file, page) {
            Some(i) => i,
            None => return,
        };
        let (dh, dr) = match &self.entries[i].inner.dirty {
            Some((h, r)) => (h.id, r.id),
            None => return,
        };
        let cid = match &self.entries[i].inner.clean {
            Some(h) => Some(h.id),
            None => None,
        };
        assert(self.entry_ok(self.entries@[i as int]));
        let bytes = self.pages.contents(&PageRef { id: dr });
        let ghost s0 = *self;
        self.entries[i].inner.dirty = None;
        proof {
            assert(self.entries@ =~= s0.entries@.update(i as int, self.entries@[i as int]));
            Self::lemma_set_entry(s0, *self, i as int);
            assert(!self.holds_dirty(dr)) by {
                if self.holds_dirty(dr) {
                    let k = choose|k: int|
                        0 <= k < self.entries@.len() && (#[trigger] self.entries@[k]).inner.dirty is Some
                            && dirty_id(self.entries@[k].inner) == dr;
                    assert(k != i);
                    assert(s0.entries@[k] == self.entries@[k]);
                    if k < i {
                        assert(s0.entries@[k].inner.dirty is Some && s0.entries@[i as int].inner.dirty is Some);
                    } else {
                        assert(s0.entries@[k].inner.dirty is Some && s0.entries@[i as int].inner.dirty is Some);
                    }
                }
            }
        }
        let ghost s1 = *self;
        match cid {
            Some(c) => {
                assert(s1.clean_of(file, page) == Some(c));
                let refs = self.pages.frames.slots[c.0].ref_count;
                if refs == 0 {
                    self.entries[i].inner.clean = None;
                    proof {
                        assert(self.entries@ =~= s1.entries@.update(i as int, self.entries@[i as int]));
                        Self::lemma_set_entry(s1, *self, i as int);
                    }
                } else {
                    match self.clean_cached(file, page) {
                        Some(fr) => {
                            let ghost s2 = *self;
                            assert(s1.frames().slots@[dr.0 as int].wf(s1.frames().page_size as nat));
                            self.pages.fill(&fr.0, bytes);
                            proof {
                                Self::lemma_dirty_frames_same(s2, *self, None);
                            }
                            self.release(fr);
                        },
                        None => {},
                    }
                }
            },
            None => {},
        }
        assert(self.frames().frame(dr).ref_count == s1.frames().frame(dr).ref_count);
        assert(!self.holds_dirty(dr));
        let ghost s3 = *self;
        self.pages.release_ref(PageRef { id: dr });
        proof {
            Self::lemma_dirty_frames_same(s3, *self, Some(dr));
        }
        let owners = self.pages.frames.slots[dh.0].handle_count;
        if owners >= 2 {
            let ghost s4 = *self;
            self.pages.release_handle(PageHandle { id: dh });
            proof {
                Self::lemma_dirty_frames_same(s4, *self, None);
            }
        }
        proof {
            assert(self.entries@[i as int].inner.dirty is None);
            assert(self.slot(file, page) == i);
        }
    }

    /// The bytes to write back for `(file, page)`: those of its dirty frame, if any.
    pub fn pending(&self, file: FileId, page: PageIndex) -> (r: Option<Vec<u8>>)
        requires
            self.wf(),
        ensures
            r is Some <==> self.dirty_of(file, page) is Some,
            r is Some ==> r->0@ == self.frames().bytes(self.dirty_of(file, page)->0),
    {
        let i = match self.find_entry(file, page) {
            Some(i) => i,
            None => return None,
        };
        match &self.entries[i].inner.dirty {
            Some((h, r)) => {
                assert(self.entry_ok(self.entries@[i as int]));
                Some(self.pages.contents(r))
            },
            None => None,
        }
    }
}

} // verus!
