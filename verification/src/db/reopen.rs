//! Databases on files: opening one, and making it durable.

use vstd::prelude::*;

use crate::buffer::{
    body_of, has_page, offset_of, page_at, page_good, BufferError, BufferPool, NoWal, PageId,
    WalSync,
};
use crate::btree::tree::Tree;
use crate::db::catalog::CATALOG_TID;
use crate::db::define::{damage_at, first_flaw, lists, loaded};
use crate::db::dml::{flaw, greatest_tid, of_kind, record_fits, sound_record};
use crate::db::store::{device, wired, Database};
use crate::db::{says, DbError};
use crate::heap::{
    faultless, first_fault, first_lost, heap_wf, readings, records, solid, sound, tidy, told,
    whole_stubs, HeapError, Pages, Rid,
};
use crate::page::PAGE_SIZE;
use crate::pager::Pager;
use crate::vfs::BlockFile;

verus! {

/// The pages of a file that verify.
pub open spec fn file_pages(image: Seq<u8>) -> Pages {
    Map::new(|p: PageId| page_good(image, p), |p: PageId| body_of(page_at(image, p)))
}

/// How many pages a file has.
pub open spec fn file_count(image: Seq<u8>) -> PageId {
    (image.len() as int / PAGE_SIZE as int) as PageId
}

/// Page `p` of a file is the first that does not verify.
pub open spec fn first_damaged(image: Seq<u8>, p: PageId) -> bool {
    &&& p < file_count(image)
    &&& !page_good(image, p)
    &&& forall|q: PageId| q < p ==> #[trigger] page_good(image, q)
}

/// A pool that holds no page shows those of its file.
proof fn lemma_fresh_pool<F: BlockFile, W: WalSync>(bp: &BufferPool<F, W>)
    requires
        bp.table@ == Map::<PageId, usize>::empty(),
        bp.next_page == file_count(bp.file.image()),
        bp.file.image().len() < 0x2000_0000_0000,
    ensures
        bp.pages() == file_pages(bp.file.image()),
        told(bp),
{
    let len = bp.file.image().len() as int;
    assert(bp.next_page * PAGE_SIZE <= len) by (nonlinear_arith)
        requires
            bp.next_page == len / (PAGE_SIZE as int),
            PAGE_SIZE == 8192,
            0 <= len,
    ;
    assert forall|p: PageId| p < bp.count() implies #[trigger] bp.pages().dom().contains(p)
        || bp.lost(p) by {
        assert(!bp.resident_in(p));
        assert(offset_of(p) + PAGE_SIZE <= len);
    }
    assert forall|p: PageId| bp.pages().dom().contains(p) == file_pages(
        bp.file.image(),
    ).dom().contains(p) by {
        assert(!bp.resident_in(p));
    }
    assert(bp.pages() =~= file_pages(bp.file.image()));
}

/// A file that can be opened: its pages are well formed and its definitions within bounds.
pub open spec fn openable(image: Seq<u8>) -> bool {
    let a = file_pages(image);
    &&& image.len() < 0x2000_0000_0000
    &&& heap_wf(a)
    &&& whole_stubs(a)
    &&& faultless(a) ==> forall|x: Rid| #[trigger]
        readings(a).dom().contains(x) ==> record_fits(readings(a)[x])
    &&& faultless(a) ==> forall|v: Seq<(Rid, Seq<u8>)>| #[trigger]
        lists(readings(a), v) ==> greatest_tid(of_kind(v, CATALOG_TID)) < 0xFFFF
}

/// The database is that of the file.
pub open spec fn opened<F: BlockFile>(
    image: Seq<u8>,
    db: &Database<BufferPool<F, NoWal>>,
) -> bool {
    let a = file_pages(image);
    &&& db.bp.pager_ok()
    &&& db.bp.pages() == a
    &&& db.bp.count() == file_count(image)
    &&& solid(a, file_count(image))
    &&& faultless(a)
    &&& exists|v: Seq<(Rid, Seq<u8>)>| #[trigger]
        lists(readings(a), v) && loaded(db.tables@, db.indexes@, db.next_tid, v)
    &&& forall|x: Rid| #[trigger]
        readings(a).dom().contains(x) ==> sound_record(readings(a)[x])
    &&& sound(a) ==> forall|ts: Seq<Tree>| #[trigger] wired(a, db.indexes@, ts) ==> db.ok()
}

/// What keeps a file from being opened: the device, which may fail only where there is
/// `trouble`, the first damaged page, the first faulty record or the first flawed definition.
pub open spec fn not_opened(image: Seq<u8>, trouble: bool, e: DbError) -> bool {
    let a = file_pages(image);
    ||| device(e) && trouble
    ||| exists|p: PageId| #[trigger] first_damaged(image, p) && damage_at(e, p)
    ||| solid(a, file_count(image)) && exists|x: Rid, h: HeapError| #[trigger]
        first_fault(a, x, h) && e == DbError::Heap(h)
    ||| faultless(a) && exists|x: Rid| #[trigger]
        first_flaw(readings(a), x) && says(e, flaw(readings(a)[x]))
}

impl<F: BlockFile> Database<BufferPool<F, NoWal>> {
    /// The database in a file.
    pub fn open(file: F, frames: usize) -> (r: Result<Self, DbError>)
        requires
            frames > 0,
            openable(file.image()),
        ensures
            match r {
                Ok(db) => opened(file.image(), &db),
                Err(e) => not_opened(
                    file.image(),
                    !file.reliable() || 0x2000_0000_0000 > usize::MAX,
                    e,
                ),
            },
    {
        let ghost image = file.image();
        let ghost firm = file.reliable();
        match BufferPool::open_default(file, frames) {
            Ok(bp) => {
                proof {
                    lemma_fresh_pool(&bp);
                    assert(bp.wal.dependable());
                    assert forall|p: PageId| #[trigger] first_lost(&bp, p) implies first_damaged(image, p) by {
                        assert(bp.lost(p));
                        assert(bp.damaged(p));
                        assert forall|q: PageId| q < p implies #[trigger] page_good(image, q) by {
                            assert(bp.pages().dom().contains(q));
                        }
                    }
                }
                Database::with_pager(bp)
            },
            Err(e) => Err(DbError::Buffer(e)),
        }
    }

    /// The database in a file whose pages stay in the pool until a checkpoint, as they do
    /// where a log holds the statements.
    pub fn open_kept(file: F, frames: usize) -> (r: Result<Self, DbError>)
        requires
            frames > 0,
            openable(file.image()),
        ensures
            match r {
                Ok(db) => opened(file.image(), &db) && db.bp.reach() <= frames && (
                file.reliable() && 0x2000_0000_0000 <= usize::MAX ==> db.bp.reach() == frames),
                Err(e) => not_opened(
                    file.image(),
                    !file.reliable() || 0x2000_0000_0000 > usize::MAX || file_count(file.image())
                        > frames,
                    e,
                ),
            },
    {
        let ghost image = file.image();
        match BufferPool::open_default(file, frames) {
            Ok(bp) => {
                let ghost was = bp;
                let mut kept: BufferPool<F, NoWal> = bp;
                kept.set_no_steal();
                proof {
                    assert forall|i: int| 0 <= i < kept.frames@.len() implies #[trigger] kept.frame_ok(
                        i,
                    ) by {
                        assert(was.frame_ok(i));
                    }
                    lemma_fresh_pool(&kept);
                    assert(kept.wal.dependable());
                    assert forall|p: PageId| #[trigger] first_lost(&kept, p) implies first_damaged(
                        image,
                        p,
                    ) by {
                        assert(kept.lost(p));
                        assert(kept.damaged(p));
                        assert forall|q: PageId| q < p implies #[trigger] page_good(image, q) by {
                            assert(kept.pages().dom().contains(q));
                        }
                    }
                }
                Database::with_pager(kept)
            },
            Err(e) => Err(DbError::Buffer(e)),
        }
    }
}

impl<F: BlockFile, W: WalSync> Database<BufferPool<F, W>> {
    /// Write out everything that is not on the file yet, and make it durable.
    pub fn checkpoint(&mut self) -> (r: Result<(), DbError>)
        requires
            old(self).ok(),
        ensures
            final(self).counts == old(self).counts,
            final(self).ok(),
            final(self).bp.pages() == old(self).bp.pages(),
            final(self).bp.count() == old(self).bp.count(),
            final(self).bp.reach() == old(self).bp.reach(),
            final(self).tables == old(self).tables,
            final(self).indexes == old(self).indexes,
            final(self).next_tid == old(self).next_tid,
            final(self).trees == old(self).trees,
            match r {
                Ok(()) => final(self).bp.flushed_out() && final(self).bp.file.synced(),
                Err(e) => e is Buffer && e->Buffer_0 is Io && !old(self).bp.steady(),
            },
    {
        let ghost was = self.bp;
        proof {
            assert forall|i: int| 0 <= i < self.bp.frames@.len() implies !(
            #[trigger] self.bp.frames@[i]).writer by {
                assert(self.bp.frame_ok(i));
            }
        }
        let r: Result<(), BufferError> = self.bp.checkpoint();
        proof {
            self.bp.lemma_pages();
            assert forall|p: PageId| #[trigger] was.pages().dom().contains(
                p,
            ) implies self.bp.pages().dom().contains(p) && was.pages()[p]
                == self.bp.pages()[p] by {
                assert(was.content(p) is Some);
                assert(self.bp.content(p) == was.content(p));
            }
            assert forall|p: PageId| #[trigger] self.bp.pages().dom().contains(
                p,
            ) implies was.pages().dom().contains(p) by {
                assert(p < was.count());
            }
            assert(self.bp.pages().dom() =~= was.pages().dom());
            assert(self.bp.pages() =~= was.pages());
        }
        match r {
            Ok(()) => Ok(()),
            Err(e) => Err(DbError::Buffer(e)),
        }
    }

    /// End a statement: what it changed is made durable, unless a log holds the statement.
    pub fn persist(&mut self, logged: bool) -> (r: Result<(), DbError>)
        requires
            old(self).ok(),
        ensures
            final(self).counts == old(self).counts,
            logged ==> r is Ok && *final(self) == *old(self),
            final(self).ok(),
            final(self).bp.pages() == old(self).bp.pages(),
            final(self).bp.count() == old(self).bp.count(),
            final(self).bp.reach() == old(self).bp.reach(),
            final(self).tables == old(self).tables,
            final(self).indexes == old(self).indexes,
            final(self).next_tid == old(self).next_tid,
            final(self).trees == old(self).trees,
            !logged ==> match r {
                Ok(()) => final(self).bp.flushed_out() && final(self).bp.file.synced(),
                Err(e) => e is Buffer && e->Buffer_0 is Io && !old(self).bp.steady(),
            },
    {
        if logged {
            Ok(())
        } else {
            self.checkpoint()
        }
    }

    /// How a statement that came to `r` ended: one that failed ends there, and what another
    /// changed is durable before its result is handed on, unless a log holds the statement.
    pub open spec fn ended<T>(
        &self,
        before: &Self,
        r: Result<T, DbError>,
        logged: bool,
        out: Result<T, DbError>,
    ) -> bool {
        &&& self.counts == before.counts
        &&& r is Err ==> out == r && *self == *before
        &&& r is Ok && logged ==> out == r && *self == *before
        &&& r is Ok ==> {
            &&& self.ok()
            &&& self.bp.pages() == before.bp.pages()
            &&& self.bp.count() == before.bp.count()
            &&& self.bp.reach() == before.bp.reach()
            &&& self.tables == before.tables
            &&& self.indexes == before.indexes
            &&& self.next_tid == before.next_tid
            &&& self.trees == before.trees
        }
        &&& r is Ok && !logged ==> match out {
            Ok(v) => {
                &&& r == Ok::<T, DbError>(v)
                &&& self.bp.flushed_out()
                &&& self.bp.file.synced()
            },
            Err(e) => e is Buffer && e->Buffer_0 is Io && !before.bp.steady(),
        }
    }

    /// End a statement that came to `r`: one that failed ends there, what another changed is
    /// made durable before its result is handed on, unless a log holds the statement.
    pub fn end_statement<T>(&mut self, r: Result<T, DbError>, logged: bool) -> (out: Result<
        T,
        DbError,
    >)
        requires
            r is Ok ==> old(self).ok(),
        ensures
            final(self).ended(old(self), r, logged, out),
    {
        match r {
            Ok(v) => match self.persist(logged) {
                Ok(()) => Ok(v),
                Err(e) => Err(e),
            },
            Err(e) => Err(e),
        }
    }
}

/// A database that was made durable is found again in its file: the same pages, and so
/// the same records, tables and indexes.
pub proof fn law_checkpointed_database_reopens<F: BlockFile, W: WalSync>(
    db: &Database<BufferPool<F, W>>,
    image: Seq<u8>,
)
    requires
        db.ok(),
        db.bp.flushed_out(),
        image == db.bp.file.image(),
    ensures
        file_pages(image) == db.bp.pages(),
        file_count(image) == db.bp.count(),
        tidy(file_pages(image), file_count(image)),
        sound(file_pages(image)),
        records(file_pages(image)) == db.stored(),
        wired(file_pages(image), db.indexes@, db.trees@),
{
    reveal(Database::stored);
    let bp = db.bp;
    let n = bp.next_page;
    bp.lemma_pages();
    assert forall|i: int| 0 <= i < bp.frames@.len() implies !(#[trigger] bp.frames@[i]).writer by {
        assert(bp.frame_ok(i));
    }
    assert forall|p: PageId| p < n implies page_good(image, p) && #[trigger] bp.content(p) == Some(
        body_of(page_at(image, p)),
    ) by {
        assert(bp.pages().dom().contains(p));
        assert(bp.content(p) is Some);
        if bp.resident_in(p) {
            assert(!bp.frame_of(p).writer);
        }
    }
    let len = image.len() as int;
    assert(n * PAGE_SIZE <= len) by {
        if n > 0 {
            let p = (n - 1) as PageId;
            assert(bp.content(p) is Some);
            assert(has_page(image, p));
        }
    }
    assert(len / (PAGE_SIZE as int) == n) by (nonlinear_arith)
        requires
            n * PAGE_SIZE <= len < n * PAGE_SIZE + PAGE_SIZE,
            PAGE_SIZE == 8192,
    ;
    assert forall|p: PageId| file_pages(image).dom().contains(p) == bp.pages().dom().contains(p) by {
        if page_good(image, p) {
            assert(offset_of(p) + PAGE_SIZE <= len);
            assert(p < n);
        }
        if bp.pages().dom().contains(p) {
            assert(bp.content(p) is Some);
        }
    }
    assert forall|p: PageId| #[trigger] bp.pages().dom().contains(p) implies bp.pages()[p]
        == file_pages(image)[p] by {
        assert(bp.content(p) is Some);
    }
    assert(file_pages(image) =~= bp.pages());
}

} // verus!
