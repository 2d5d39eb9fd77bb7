//! A durable hash-bucket key-value store over the page cache.
//!
//! Each bucket is one page with a flat array of entries and a CRC over its payload,
//! so a torn page is detected, never read as valid data. A full bucket is an honest
//! error, never a silent drop.

use vstd::prelude::*;

use crate::buffer::{has_page, lemma_write_page, page_at, page_offset, NoWal, PageId};
use crate::bytes::{
    le32, le32_bytes, le64, le64_bytes, lemma_le64_bytes, rd_u32, rd_u64, splice, wr_u32, wr_u64,
};
use crate::cbuffer::{
    cache_error_text, law_checkpoint_survives_reopen, CacheError, PageCache, PageFormat,
};
use crate::page::crc::{crc32, crc_of};
use crate::page::PAGE_SIZE;
use crate::text::{around, decimal};
use crate::vfs::{BlockFile, IoError};

verus! {

pub type Key = u64;

pub type Val = u64;

const HEADER: usize = 4;

const SLOT: usize = 16;

const CRC_AT: usize = 8188;

/// Entries per bucket page.
pub const BUCKET_CAP: usize = 511;

#[derive(Clone, Copy, Debug, PartialEq, Eq, Structural)]
pub enum KvError {
    Cache(CacheError),
    /// A bucket page is full.
    BucketFull(u32),
    /// A bucket page failed its checksum.
    Corrupt(u32),
}

/// The text of an error, where `io` is what the file says of its own failure.
pub open spec fn kv_error_text(e: KvError, io: Seq<char>) -> Seq<char> {
    match e {
        KvError::Cache(c) => "cache: "@ + cache_error_text(c, io),
        KvError::BucketFull(b) => "bucket "@ + decimal(b as nat) + " full"@,
        KvError::Corrupt(b) => "bucket "@ + decimal(b as nat) + " failed checksum"@,
    }
}

impl KvError {
    /// The text of the error, where `io` is what the file says of its own failure.
    pub fn text(&self, io: &str) -> (t: String)
        ensures
            t@ == kv_error_text(*self, io@),
    {
        match self {
            KvError::Cache(c) => "cache: ".to_owned().concat(c.text(io).as_str()),
            KvError::BucketFull(b) => around("bucket ", *b, " full"),
            KvError::Corrupt(b) => around("bucket ", *b, " failed checksum"),
        }
    }
}

// ---- a bucket page ----

/// How many entries a bucket page says it has.
pub open spec fn count_in(b: Seq<u8>) -> int {
    le32(b, 0)
}

/// Entry `i` of a bucket page.
pub open spec fn entry_in(b: Seq<u8>, i: int) -> (Key, Val) {
    (le64(b, 4 + 16 * i) as u64, le64(b, 12 + 16 * i) as u64)
}

/// How many entries can be read from a bucket page: as many as it says, and no more than
/// it has room for.
pub open spec fn held_in(b: Seq<u8>) -> int {
    if count_in(b) <= BUCKET_CAP {
        count_in(b)
    } else {
        BUCKET_CAP as int
    }
}

/// The entries of a bucket page.
pub open spec fn entries_in(b: Seq<u8>) -> Seq<(Key, Val)> {
    Seq::new(held_in(b) as nat, |i: int| entry_in(b, i))
}

/// The page's CRC matches its payload.
pub open spec fn intact_page(b: Seq<u8>) -> bool {
    crc_of(b.take(8188)) == le32(b, 8188)
}

/// The first entry with key `k`, or past the end.
pub open spec fn first_at(es: Seq<(Key, Val)>, k: Key) -> int
    decreases es.len(),
{
    if es.len() == 0 || es[0].0 == k {
        0
    } else {
        1 + first_at(es.drop_first(), k)
    }
}

/// What entries hold for `k`.
pub open spec fn lookup(es: Seq<(Key, Val)>, k: Key) -> Option<Val> {
    if first_at(es, k) < es.len() {
        Some(es[first_at(es, k)].1)
    } else {
        None
    }
}

/// Entries with `k` set to `v`.
pub open spec fn stored(es: Seq<(Key, Val)>, k: Key, v: Val) -> Seq<(Key, Val)> {
    if first_at(es, k) < es.len() {
        es.update(first_at(es, k), (k, v))
    } else {
        es.push((k, v))
    }
}

pub proof fn lemma_first_at(es: Seq<(Key, Val)>, k: Key)
    ensures
        0 <= first_at(es, k) <= es.len(),
        forall|j: int| 0 <= j < first_at(es, k) ==> (#[trigger] es[j]).0 != k,
        first_at(es, k) < es.len() ==> es[first_at(es, k)].0 == k,
    decreases es.len(),
{
    if es.len() > 0 && es[0].0 != k {
        let d = es.drop_first();
        lemma_first_at(d, k);
        assert forall|j: int| 0 <= j < first_at(es, k) implies (#[trigger] es[j]).0 != k by {
            if j > 0 {
                assert(d[j - 1] == es[j]);
            }
        }
    }
}

/// Only one position fits the description.
proof fn lemma_first_is(es: Seq<(Key, Val)>, k: Key, i: int)
    requires
        0 <= i <= es.len(),
        forall|j: int| 0 <= j < i ==> (#[trigger] es[j]).0 != k,
        i < es.len() ==> es[i].0 == k,
    ensures
        first_at(es, k) == i,
{
    lemma_first_at(es, k);
    if first_at(es, k) < i {
        assert(es[first_at(es, k)].0 != k);
    } else if i < first_at(es, k) {
        assert(es[i].0 != k);
    }
}

/// A stored key reads back, and every other key is as it was.
pub proof fn law_stored_key_reads_back(es: Seq<(Key, Val)>, k: Key, v: Val, other: Key)
    ensures
        lookup(stored(es, k, v), k) == Some(v),
        other != k ==> lookup(stored(es, k, v), other) == lookup(es, other),
{
    let fs = stored(es, k, v);
    lemma_first_at(es, k);
    lemma_first_at(es, other);
    let i = first_at(es, k);
    assert forall|j: int| 0 <= j < i implies (#[trigger] fs[j]).0 != k by {
        assert(fs[j] == es[j]);
    }
    lemma_first_is(fs, k, i);
    if other != k {
        let o = first_at(es, other);
        if o < es.len() {
            assert forall|j: int| 0 <= j < o implies (#[trigger] fs[j]).0 != other by {
                assert(es[j].0 != other);
            }
            lemma_first_is(fs, other, o);
        } else {
            assert forall|j: int| 0 <= j < fs.len() implies (#[trigger] fs[j]).0 != other by {
                if j < es.len() {
                    assert(es[j].0 != other);
                }
            }
            lemma_first_is(fs, other, fs.len() as int);
        }
    }
}

pub fn read_count(buf: &[u8]) -> (n: usize)
    requires
        buf@.len() == PAGE_SIZE,
    ensures
        n == count_in(buf@),
{
    rd_u32(buf, 0) as usize
}

pub fn write_count(buf: &mut [u8], n: usize)
    requires
        old(buf)@.len() == PAGE_SIZE,
        n <= u32::MAX,
    ensures
        final(buf)@ == splice(old(buf)@, 0, le32_bytes(n as u32)),
        count_in(final(buf)@) == n,
{
    wr_u32(buf, 0, n as u32);
}

pub fn entry(buf: &[u8], i: usize) -> (e: (Key, Val))
    requires
        buf@.len() == PAGE_SIZE,
        i < BUCKET_CAP,
    ensures
        e == entry_in(buf@, i as int),
{
    let o: usize = HEADER + i * SLOT;
    (rd_u64(buf, o), rd_u64(buf, o + 8))
}

pub fn set_entry(buf: &mut [u8], i: usize, k: Key, v: Val)
    requires
        old(buf)@.len() == PAGE_SIZE,
        i < BUCKET_CAP,
    ensures
        final(buf)@ == splice(old(buf)@, 4 + 16 * i, le64_bytes(k) + le64_bytes(v)),
        entry_in(final(buf)@, i as int) == (k, v),
        count_in(final(buf)@) == count_in(old(buf)@),
        forall|j: int|
            0 <= j < BUCKET_CAP && j != i ==> #[trigger] entry_in(final(buf)@, j) == entry_in(
                old(buf)@,
                j,
            ),
{
    let o: usize = HEADER + i * SLOT;
    wr_u64(buf, o, k);
    let ghost mid = buf@;
    wr_u64(buf, o + 8, v);
    proof {
        let b = buf@;
        let a = old(buf)@;
        assert(le64_bytes(k).len() == 8 && le64_bytes(v).len() == 8);
        assert(b =~= splice(a, o as int, le64_bytes(k) + le64_bytes(v)));
        assert(b.subrange(o as int, o + 8) =~= le64_bytes(k));
        lemma_le64_bytes(b, o as int, k);
        assert forall|j: int| 0 <= j < BUCKET_CAP && j != i implies #[trigger] entry_in(b, j)
            == entry_in(a, j) by {
            assert(forall|x: int| 4 + 16 * j <= x < 20 + 16 * j ==> b[x] == a[x]);
        }
    }
}

pub fn find(buf: &[u8], k: Key) -> (r: Option<usize>)
    requires
        buf@.len() == PAGE_SIZE,
    ensures
        match r {
            Some(i) => i == first_at(entries_in(buf@), k) && i < entries_in(buf@).len(),
            None => first_at(entries_in(buf@), k) == entries_in(buf@).len(),
        },
{
    let count: usize = read_count(buf);
    let n: usize = if count <= BUCKET_CAP {
        count
    } else {
        BUCKET_CAP
    };
    let ghost es = entries_in(buf@);
    let mut i: usize = 0;
    while i < n
        invariant
            i <= n == es.len(),
            n <= BUCKET_CAP,
            buf@.len() == PAGE_SIZE,
            es == entries_in(buf@),
            forall|j: int| 0 <= j < i ==> (#[trigger] es[j]).0 != k,
        decreases n - i,
    {
        assert(es[i as int] == entry_in(buf@, i as int));
        if entry(buf, i).0 == k {
            proof {
                lemma_first_is(es, k, i as int);
            }
            return Some(i);
        }
        i = i + 1;
    }
    proof {
        lemma_first_is(es, k, n as int);
    }
    None
}

/// Stamp the trailing CRC over the payload.
pub fn seal(buf: &mut Vec<u8>)
    requires
        old(buf)@.len() == PAGE_SIZE,
    ensures
        final(buf)@.len() == PAGE_SIZE,
        intact_page(final(buf)@),
        forall|i: int| 0 <= i < 8188 ==> #[trigger] final(buf)@[i] == old(buf)@[i],
{
    let ghost a = buf@;
    let c: u32 = crc32(&buf.as_slice()[0..CRC_AT]);
    wr_u32(buf.as_mut_slice(), CRC_AT, c);
    proof {
        assert(le32_bytes(c).len() == 4);
        assert(buf@.take(8188) =~= a.subrange(0, 8188));
    }
}

/// Sealing changes no entry.
proof fn lemma_sealed(a: Seq<u8>, b: Seq<u8>)
    requires
        a.len() == PAGE_SIZE,
        b.len() == PAGE_SIZE,
        forall|i: int| 0 <= i < 8188 ==> #[trigger] b[i] == a[i],
    ensures
        entries_in(b) == entries_in(a),
        count_in(b) == count_in(a),
{
    assert(count_in(b) == count_in(a));
    assert forall|i: int| 0 <= i < held_in(a) implies entry_in(b, i) == entry_in(a, i) by {
        assert(forall|x: int| 4 + 16 * i <= x < 20 + 16 * i ==> b[x] == a[x]);
    }
    assert(entries_in(b) =~= entries_in(a));
}

/// Whether a bucket page's CRC matches its payload.
pub fn intact(buf: &[u8]) -> (r: bool)
    requires
        buf@.len() == PAGE_SIZE,
    ensures
        r == intact_page(buf@),
{
    assert(buf@.take(8188) =~= buf@.subrange(0, 8188));
    crc32(&buf[0..CRC_AT]) == rd_u32(buf, CRC_AT)
}

/// Set `k` to `v` in a bucket page; false where it is full.
pub fn store_in(buf: &mut Vec<u8>, k: Key, v: Val) -> (r: bool)
    requires
        old(buf)@.len() == PAGE_SIZE,
    ensures
        final(buf)@.len() == PAGE_SIZE,
        count_in(final(buf)@) <= BUCKET_CAP <==> count_in(old(buf)@) <= BUCKET_CAP,
        ({
            let es = entries_in(old(buf)@);
            &&& r == (first_at(es, k) < es.len() || es.len() < BUCKET_CAP)
            &&& r ==> intact_page(final(buf)@) && entries_in(final(buf)@) == stored(es, k, v)
            &&& !r ==> final(buf)@ == old(buf)@
        }),
{
    let ghost a = buf@;
    let ghost es = entries_in(a);
    if let Some(i) = find(buf.as_slice(), k) {
        set_entry(buf.as_mut_slice(), i, k, v);
        let ghost b = buf@;
        seal(buf);
        proof {
            lemma_sealed(b, buf@);
            assert(entries_in(b) =~= stored(es, k, v)) by {
                assert forall|j: int| 0 <= j < es.len() implies entries_in(b)[j] == stored(es, k, v)[j] by {
                    assert(entry_in(b, j) == if j == i {
                        (k, v)
                    } else {
                        entry_in(a, j)
                    });
                }
            }
        }
        return true;
    }
    let n: usize = read_count(buf.as_slice());
    if n >= BUCKET_CAP {
        return false;
    }
    set_entry(buf.as_mut_slice(), n, k, v);
    let ghost b = buf@;
    write_count(buf.as_mut_slice(), n + 1);
    let ghost c = buf@;
    seal(buf);
    proof {
        assert(le32_bytes((n + 1) as u32).len() == 4);
        assert forall|j: int| 0 <= j < BUCKET_CAP implies #[trigger] entry_in(c, j) == entry_in(b, j) by {
            assert(forall|x: int| 4 + 16 * j <= x < 20 + 16 * j ==> c[x] == b[x]);
        }
        lemma_sealed(c, buf@);
        assert(entries_in(c) =~= stored(es, k, v)) by {
            assert forall|j: int| 0 <= j < n + 1 implies entries_in(c)[j] == stored(es, k, v)[j] by {
                assert(entry_in(c, j) == entry_in(b, j));
                if j < n {
                    assert(entry_in(b, j) == entry_in(a, j));
                }
            }
        }
    }
    true
}

/// A page that is asked to hold `k`, has no entry for it, and is full.
pub open spec fn full_page(b: Seq<u8>, k: Key) -> bool {
    let es = entries_in(b);
    first_at(es, k) == es.len() && es.len() >= BUCKET_CAP
}

/// What a write of `v` under `k` does to the page of bucket `bucket`.
spec fn page_put(
    b: Seq<u8>,
    bucket: u32,
    k: Key,
    v: Val,
    c: Seq<u8>,
    r: Result<(), KvError>,
) -> bool {
    &&& c.len() == PAGE_SIZE
    &&& if !serving_page(b, k) {
        r == Err::<(), KvError>(KvError::Corrupt(bucket)) && c == b
    } else if full_page(b, k) {
        r == Err::<(), KvError>(KvError::BucketFull(bucket)) && c == b
    } else {
        &&& r == Ok::<(), KvError>(())
        &&& intact_page(c)
        &&& count_in(c) <= BUCKET_CAP <==> count_in(b) <= BUCKET_CAP
        &&& entries_in(c) == stored(entries_in(b), k, v)
    }
}

fn put_in(b: Vec<u8>, bucket: u32, k: Key, v: Val) -> (o: (Vec<u8>, Result<(), KvError>))
    requires
        b@.len() == PAGE_SIZE,
    ensures
        page_put(b@, bucket, k, v, o.0@, o.1),
{
    proof {
        lemma_first_at(entries_in(b@), k);
    }
    let mut page: Vec<u8> = b;
    if !serving(page.as_slice(), k) {
        return (page, Err(KvError::Corrupt(bucket)));
    }
    if !store_in(&mut page, k, v) {
        return (page, Err(KvError::BucketFull(bucket)));
    }
    (page, Ok(()))
}

/// The outcome without the value.
spec fn discarded(r: Result<Val, KvError>) -> Result<(), KvError> {
    match r {
        Ok(_) => Ok(()),
        Err(e) => Err(e),
    }
}

/// What storing `f` of what `k` holds, or of `default`, does to the page of bucket
/// `bucket`; the value stored.
spec fn page_updated<G: FnOnce(Val) -> Val>(
    b: Seq<u8>,
    bucket: u32,
    k: Key,
    default: Val,
    f: G,
    c: Seq<u8>,
    r: Result<Val, KvError>,
) -> bool {
    &&& page_put(b, bucket, k, r->Ok_0, c, discarded(r))
    &&& r matches Ok(v) ==> f.ensures(
        (match lookup(entries_in(b), k) {
            Some(v) => v,
            None => default,
        },),
        v,
    )
}

fn update_in<G: FnOnce(Val) -> Val>(b: Vec<u8>, bucket: u32, k: Key, default: Val, f: G) -> (o: (
    Vec<u8>,
    Result<Val, KvError>,
))
    requires
        b@.len() == PAGE_SIZE,
        forall|v: Val| #[trigger] f.requires((v,)),
    ensures
        page_updated(b@, bucket, k, default, f, o.0@, o.1),
{
    proof {
        lemma_first_at(entries_in(b@), k);
    }
    let mut page: Vec<u8> = b;
    if !serving(page.as_slice(), k) {
        return (page, Err(KvError::Corrupt(bucket)));
    }
    let base: Val = match find(page.as_slice(), k) {
        Some(i) => entry(page.as_slice(), i).1,
        None => {
            if read_count(page.as_slice()) >= BUCKET_CAP {
                return (page, Err(KvError::BucketFull(bucket)));
            }
            default
        },
    };
    let v: Val = f(base);
    store_in(&mut page, k, v);
    (page, Ok(v))
}

/// A bucket page that was written to, as the store sees it.
proof fn lemma_put<F: BlockFile>(
    x: &PagedKv<F>,
    y: &PagedKv<F>,
    b: Seq<u8>,
    c: Seq<u8>,
    k: Key,
    v: Val,
    r: Result<(), KvError>,
)
    requires
        x.wf(),
        y.wf(),
        y.buckets == x.buckets,
        y.steady() == x.steady(),
        y.cache.edited(&x.cache, hash(k, x.buckets), b, c),
        page_put(b, hash(k, x.buckets), k, v, c, r),
    ensures
        x.page(hash(k, x.buckets)) is Some ==> x.page(hash(k, x.buckets)) == Some(b),
        y.page(hash(k, x.buckets)) == Some(c),
        r is Ok ==> serving_page(b, k) && !full_page(b, k) && y.wrote(x, k, v),
        r is Err ==> y.keeps(x) && c == b,
{
    let at = hash(k, x.buckets);
    let es = entries_in(b);
    lemma_first_at(es, k);
    if r is Ok {
        law_stored_key_reads_back(es, k, v, k);
        lemma_first_at(stored(es, k, v), k);
    } else {
        assert forall|p: PageId| (#[trigger] x.cache.content(p)) is Some implies y.cache.content(p)
            == x.cache.content(p) by {}
    }
}

// ---- the store ----

/// The bucket of a key.
pub open spec fn hash(k: Key, buckets: u32) -> u32 {
    let h = (k.wrapping_mul(0x9E37_79B9_7F4A_7C15) >> 32) as u32;
    h % buckets
}

/// A hash-bucket store over a fixed number of bucket pages.
pub struct PagedKv<F: BlockFile> {
    pub cache: PageCache<F, NoWal>,
    pub buckets: u32,
}

/// A page that all of a bucket's entries can be read from.
pub open spec fn whole_page(b: Seq<u8>) -> bool {
    intact_page(b) && count_in(b) <= BUCKET_CAP
}

/// A page that says what `k` holds: it has an entry for `k`, or all its entries can be
/// read.
pub open spec fn serving_page(b: Seq<u8>, k: Key) -> bool {
    intact_page(b) && (count_in(b) <= BUCKET_CAP || first_at(entries_in(b), k)
        < entries_in(b).len())
}

/// Whether a bucket page says what `k` holds.
fn serving(buf: &[u8], k: Key) -> (r: bool)
    requires
        buf@.len() == PAGE_SIZE,
    ensures
        r == serving_page(buf@, k),
{
    intact(buf) && (read_count(buf) <= BUCKET_CAP || find(buf, k).is_some())
}

/// Whether entries can be read from a bucket page.
fn readable(buf: &[u8]) -> (r: bool)
    requires
        buf@.len() == PAGE_SIZE,
    ensures
        r == whole_page(buf@),
{
    intact(buf) && read_count(buf) <= BUCKET_CAP
}

/// The sum of the values of entries.
pub open spec fn value_sum(es: Seq<(Key, Val)>) -> int
    decreases es.len(),
{
    if es.len() == 0 {
        0
    } else {
        value_sum(es.drop_last()) + es.last().1
    }
}

impl<F: BlockFile> PagedKv<F> {
    /// What bucket page `b` holds, if it can be had.
    pub open spec fn page(&self, b: u32) -> Option<Seq<u8>> {
        self.cache.content(b)
    }

    /// Bucket `b` can be had and its entries can be read.
    pub open spec fn whole(&self, b: u32) -> bool {
        self.page(b) is Some && whole_page(self.page(b)->0)
    }

    /// The bucket of `k` can be had and says what `k` holds.
    pub open spec fn serves(&self, k: Key) -> bool {
        let b = hash(k, self.buckets);
        self.page(b) is Some && serving_page(self.page(b)->0, k)
    }

    /// The bucket of `k` was had and does not say what `k` holds.
    pub open spec fn refuses(&self, k: Key) -> bool {
        let b = hash(k, self.buckets);
        self.page(b) is Some && !serving_page(self.page(b)->0, k)
    }

    pub open spec fn entries(&self, b: u32) -> Seq<(Key, Val)> {
        entries_in(self.page(b)->0)
    }

    pub open spec fn wf(&self) -> bool {
        &&& self.cache.wf()
        &&& self.cache.idle()
        &&& self.cache.fmt == (PageFormat { lsn_at: None, checked: false })
        &&& self.cache.dir.steal
        &&& self.buckets > 0
    }

    /// What the store holds for `k`.
    pub open spec fn at(&self, k: Key) -> Option<Val> {
        let b = hash(k, self.buckets);
        if self.serves(k) {
            lookup(self.entries(b), k)
        } else {
            None
        }
    }

    /// Every bucket is whole.
    pub open spec fn healthy(&self) -> bool {
        forall|b: u32| b < self.buckets ==> #[trigger] self.whole(b)
    }

    /// Nothing fails on its own.
    pub open spec fn steady(&self) -> bool {
        self.cache.steady()
    }

    /// Every page that could be had is as it was.
    pub open spec fn keeps(&self, before: &Self) -> bool {
        &&& self.wf()
        &&& self.steady() == before.steady()
        &&& self.buckets == before.buckets
        &&& self.cache.keeps(&before.cache)
    }

    /// The same, but for bucket `b`.
    pub open spec fn keeps_but(&self, before: &Self, b: u32) -> bool {
        &&& self.wf()
        &&& self.steady() == before.steady()
        &&& self.buckets == before.buckets
        &&& self.cache.keeps_but(&before.cache, b)
    }

    /// Bucket `b` could not be had, for the reason `e`.
    pub open spec fn missing(&self, b: u32, e: CacheError) -> bool {
        &&& self.cache.unreadable(b, e) || e is Io && !self.steady()
        &&& !self.cache.resident(b)
    }

    /// Bucket `b` was had and its entries cannot be read.
    pub open spec fn torn(&self, b: u32) -> bool {
        self.page(b) is Some && !whole_page(self.page(b)->0)
    }

    fn bucket_of(&self, k: Key) -> (b: u32)
        requires
            self.buckets > 0,
        ensures
            b == hash(k, self.buckets),
            b < self.buckets,
    {
        let h: u64 = k.wrapping_mul(0x9E37_79B9_7F4A_7C15) >> 32;
        (h as u32) % self.buckets
    }

    /// A whole bucket page, or why there is none.
    fn load(&mut self, b: u32) -> (r: Result<Vec<u8>, KvError>)
        requires
            old(self).wf(),
        ensures
            final(self).keeps(old(self)),
            match r {
                Ok(page) => page@.len() == PAGE_SIZE && final(self).page(b) == Some(page@)
                    && final(self).whole(b),
                Err(KvError::Corrupt(c)) => c == b && final(self).torn(b),
                Err(KvError::Cache(e)) => final(self).missing(b, e),
                Err(KvError::BucketFull(_)) => false,
            },
            old(self).steady() && old(self).page(b) is Some ==> !(r is Err && r->Err_0 is Cache),
    {
        match self.cache.copy_of(b) {
            Ok(page) => {
                if readable(page.as_slice()) {
                    Ok(page)
                } else {
                    Err(KvError::Corrupt(b))
                }
            },
            Err(e) => Err(KvError::Cache(e)),
        }
    }

    /// The bucket page of `k`, or why it cannot serve.
    fn load_for(&mut self, b: u32, k: Key) -> (r: Result<Vec<u8>, KvError>)
        requires
            old(self).wf(),
            b == hash(k, old(self).buckets),
        ensures
            final(self).keeps(old(self)),
            match r {
                Ok(page) => page@.len() == PAGE_SIZE && final(self).page(b) == Some(page@)
                    && final(self).serves(k),
                Err(KvError::Corrupt(c)) => c == b && final(self).refuses(k),
                Err(KvError::Cache(e)) => final(self).missing(b, e),
                Err(KvError::BucketFull(_)) => false,
            },
            old(self).steady() && old(self).page(b) is Some ==> !(r is Err && r->Err_0 is Cache),
    {
        match self.cache.copy_of(b) {
            Ok(page) => {
                if serving(page.as_slice(), k) {
                    Ok(page)
                } else {
                    Err(KvError::Corrupt(b))
                }
            },
            Err(e) => Err(KvError::Cache(e)),
        }
    }

    /// Look up `k`.
    pub fn get(&mut self, k: Key) -> (r: Result<Option<Val>, KvError>)
        requires
            old(self).wf(),
        ensures
            final(self).keeps(old(self)),
            ({
                let b = hash(k, old(self).buckets);
                &&& match r {
                    Ok(v) => final(self).serves(k) && v == final(self).at(k),
                    Err(KvError::Corrupt(c)) => c == b && final(self).refuses(k),
                    Err(KvError::Cache(e)) => final(self).missing(b, e),
                    Err(KvError::BucketFull(_)) => false,
                }
                &&& old(self).steady() && old(self).serves(k) ==> r == Ok::<_, KvError>(
                    old(self).at(k),
                )
                &&& old(self).steady() && old(self).refuses(k) ==> r == Err::<Option<Val>, _>(
                    KvError::Corrupt(b),
                )
            }),
    {
        let bucket: u32 = self.bucket_of(k);
        let page = match self.load_for(bucket, k) {
            Ok(page) => page,
            Err(e) => {
                return Err(e);
            },
        };
        match find(page.as_slice(), k) {
            Some(i) => Ok(Some(entry(page.as_slice(), i).1)),
            None => Ok(None),
        }
    }

    /// What a write of `v` under `k` left behind.
    pub open spec fn wrote(&self, before: &Self, k: Key, v: Val) -> bool {
        let b = hash(k, before.buckets);
        &&& self.keeps_but(before, b)
        &&& self.serves(k)
        &&& before.whole(b) ==> self.whole(b)
        &&& before.serves(k) ==> self.entries(b) == stored(before.entries(b), k, v)
        &&& self.at(k) == Some(v)
    }

    /// Bucket `b` is whole, full, and has no entry for `k`.
    pub open spec fn no_room(&self, k: Key) -> bool {
        let es = self.entries(hash(k, self.buckets));
        &&& self.whole(hash(k, self.buckets))
        &&& es.len() >= BUCKET_CAP
        &&& first_at(es, k) == es.len()
    }

    /// Insert or overwrite `k = v`.
    pub fn put(&mut self, k: Key, v: Val) -> (r: Result<(), KvError>)
        requires
            old(self).wf(),
        ensures
            ({
                let b = hash(k, old(self).buckets);
                &&& match r {
                    Ok(()) => final(self).wrote(old(self), k, v),
                    Err(KvError::Corrupt(c)) => c == b && final(self).refuses(k) && final(self).keeps(
                        old(self),
                    ),
                    Err(KvError::Cache(e)) => final(self).missing(b, e) && final(self).keeps(
                        old(self),
                    ),
                    Err(KvError::BucketFull(c)) => c == b && final(self).no_room(k) && final(self).keeps(old(self)),
                }
                &&& old(self).steady() && old(self).serves(k) && !old(self).no_room(k) ==> r is Ok
                &&& old(self).steady() && old(self).no_room(k) ==> r == Err::<(), _>(
                    KvError::BucketFull(b),
                )
                &&& old(self).steady() && old(self).refuses(k) ==> r == Err::<(), _>(
                    KvError::Corrupt(b),
                )
            }),
    {
        let bucket: u32 = self.bucket_of(k);
        let ghost a = *self;
        let f = |b: Vec<u8>| -> (o: (Vec<u8>, Result<(), KvError>))
            requires
                b@.len() == PAGE_SIZE,
            ensures
                page_put(b@, bucket, k, v, o.0@, o.1),
            { put_in(b, bucket, k, v) };
        match self.cache.edit(bucket, f) {
            Ok(r) => {
                proof {
                    let (b, c): (Vec<u8>, Vec<u8>) = choose|b: Vec<u8>, c: Vec<u8>|
                        #[trigger] self.cache.edited(&a.cache, bucket, b@, c@) && f.ensures(
                            (b,),
                            (c, r),
                        );
                    lemma_put(&a, self, b@, c@, k, v, r);
                }
                r
            },
            Err(e) => Err(KvError::Cache(e)),
        }
    }

    /// Read-modify-write: `f` of what `k` holds, or of `default`.
    pub fn update<G: FnOnce(Val) -> Val>(&mut self, k: Key, default: Val, f: G) -> (r: Result<
        (),
        KvError,
    >)
        requires
            old(self).wf(),
            forall|v: Val| #[trigger] f.requires((v,)),
        ensures
            ({
                let b = hash(k, old(self).buckets);
                let base = match old(self).at(k) {
                    Some(v) => v,
                    None => default,
                };
                &&& match r {
                    Ok(()) => final(self).at(k) matches Some(v) && final(self).wrote(
                        old(self),
                        k,
                        v,
                    ) && (old(self).serves(k) ==> f.ensures((base,), v)),
                    Err(KvError::Corrupt(c)) => c == b && final(self).refuses(k) && final(self).keeps(
                        old(self),
                    ),
                    Err(KvError::Cache(e)) => final(self).missing(b, e) && final(self).keeps(
                        old(self),
                    ),
                    Err(KvError::BucketFull(c)) => c == b && final(self).no_room(k) && final(self).keeps(old(self)),
                }
                &&& old(self).steady() && old(self).serves(k) && !old(self).no_room(k) ==> r is Ok
                &&& old(self).steady() && old(self).no_room(k) ==> r == Err::<(), _>(
                    KvError::BucketFull(b),
                )
                &&& old(self).steady() && old(self).refuses(k) ==> r == Err::<(), _>(
                    KvError::Corrupt(b),
                )
            }),
    {
        let bucket: u32 = self.bucket_of(k);
        let ghost a = *self;
        let g = |b: Vec<u8>| -> (o: (Vec<u8>, Result<Val, KvError>))
            requires
                b@.len() == PAGE_SIZE,
            ensures
                page_updated(b@, bucket, k, default, f, o.0@, o.1),
            { update_in(b, bucket, k, default, f) };
        match self.cache.edit(bucket, g) {
            Ok(r) => {
                proof {
                    let (b, c): (Vec<u8>, Vec<u8>) = choose|b: Vec<u8>, c: Vec<u8>|
                        #[trigger] self.cache.edited(&a.cache, bucket, b@, c@) && g.ensures(
                            (b,),
                            (c, r),
                        );
                    let v: Val = if r is Ok {
                        r->Ok_0
                    } else {
                        0
                    };
                    lemma_put(&a, self, b@, c@, k, v, discarded(r));
                    lemma_first_at(entries_in(b@), k);
                }
                match r {
                    Ok(_) => Ok(()),
                    Err(e) => Err(e),
                }
            },
            Err(e) => Err(KvError::Cache(e)),
        }
    }

    /// Flush every dirty bucket and `sync`: the durability barrier.
    pub fn checkpoint(&mut self) -> (r: Result<(), KvError>)
        requires
            old(self).wf(),
        ensures
            final(self).keeps(old(self)),
            r is Ok ==> final(self).cache.all_clean() && final(self).cache.file.synced(),
            r is Err ==> r->Err_0 is Cache && !old(self).steady(),
    {
        let r: Result<(), IoError> = self.cache.checkpoint();
        proof {
            assert forall|i: int| 0 <= i < self.cache.dir.frames@.len() implies (
            #[trigger] self.cache.dir.frames@[i]).pins == 0 by {
                assert(old(self).cache.dir.frames@[i].pins == 0);
            }
        }
        match r {
            Ok(()) => Ok(()),
            Err(e) => Err(KvError::Cache(CacheError::Io(e))),
        }
    }

    pub fn buckets(&self) -> (n: u32)
        ensures
            n == self.buckets,
    {
        self.buckets
    }

    /// Whether bucket `bkt`'s page passes its checksum.
    pub fn bucket_intact(&mut self, bkt: u32) -> (r: Result<bool, KvError>)
        requires
            old(self).wf(),
        ensures
            final(self).keeps(old(self)),
            match r {
                Ok(ok) => final(self).page(bkt) is Some && ok == intact_page(
                    final(self).page(bkt)->0,
                ),
                Err(KvError::Cache(e)) => final(self).missing(bkt, e),
                _ => false,
            },
            old(self).steady() && old(self).page(bkt) is Some ==> r is Ok,
    {
        match self.cache.copy_of(bkt) {
            Ok(page) => Ok(intact(page.as_slice())),
            Err(e) => Err(KvError::Cache(e)),
        }
    }

    /// The entries of bucket `bkt`, or `Corrupt` if it is torn.
    pub fn bucket_entries(&mut self, bkt: u32) -> (r: Result<Vec<(Key, Val)>, KvError>)
        requires
            old(self).wf(),
        ensures
            final(self).keeps(old(self)),
            match r {
                Ok(v) => final(self).whole(bkt) && v@ == final(self).entries(bkt),
                Err(KvError::Corrupt(c)) => c == bkt && final(self).torn(bkt),
                Err(KvError::Cache(e)) => final(self).missing(bkt, e),
                Err(KvError::BucketFull(_)) => false,
            },
            old(self).steady() && old(self).page(bkt) is Some ==> !(r is Err && r->Err_0 is Cache),
    {
        let page = match self.load(bkt) {
            Ok(page) => page,
            Err(e) => {
                return Err(e);
            },
        };
        let n: usize = read_count(page.as_slice());
        let mut v: Vec<(Key, Val)> = Vec::new();
        let mut i: usize = 0;
        let ghost es = entries_in(page@);
        while i < n
            invariant
                i <= n <= BUCKET_CAP,
                n == es.len(),
                page@.len() == PAGE_SIZE,
                es == entries_in(page@),
                v@ == es.take(i as int),
            decreases n - i,
        {
            v.push(entry(page.as_slice(), i));
            i = i + 1;
            assert(v@ =~= es.take(i as int));
        }
        assert(es.take(n as int) =~= es);
        Ok(v)
    }

    /// The sum of the values of the first `n` buckets.
    pub open spec fn sum_to(&self, n: int) -> int
        decreases n,
    {
        if n <= 0 {
            0
        } else {
            self.sum_to(n - 1) + value_sum(self.entries((n - 1) as u32))
        }
    }

    /// Sum of every value across every bucket.
    pub fn total(&mut self) -> (r: Result<u128, KvError>)
        requires
            old(self).wf(),
        ensures
            final(self).keeps(old(self)),
            match r {
                Ok(n) => final(self).healthy() && n == final(self).sum_to(
                    final(self).buckets as int,
                ),
                Err(KvError::Corrupt(c)) => c < old(self).buckets && final(self).torn(c) && forall|
                    b: u32,
                | b < c ==> #[trigger] final(self).whole(b),
                Err(KvError::Cache(e)) => exists|b: u32|
                    b < old(self).buckets && #[trigger] final(self).missing(b, e),
                Err(KvError::BucketFull(_)) => false,
            },
            old(self).steady() && old(self).healthy() ==> r is Ok,
    {
        let ghost before = *self;
        let mut sum: u128 = 0;
        let mut bkt: u32 = 0;
        while bkt < self.buckets
            invariant
                bkt <= self.buckets,
                before == *old(self),
                self.keeps(&before),
                forall|b: u32| b < bkt ==> #[trigger] self.whole(b),
                sum == self.sum_to(bkt as int),
                sum <= bkt * 0x1FF_0000_0000_0000_0000,
            decreases self.buckets - bkt,
        {
            let ghost m = *self;
            let page = match self.load(bkt) {
                Ok(page) => page,
                Err(e) => {
                    proof {
                        lemma_kv_keeps(&before, &m, self);
                        assert(before.healthy() ==> before.whole(bkt));
                        assert forall|b: u32| b < bkt implies #[trigger] self.whole(b) by {
                            assert(m.whole(b));
                        }
                    }
                    return Err(e);
                },
            };
            proof {
                lemma_kv_keeps(&before, &m, self);
                lemma_sum_kept(&m, self, bkt as int);
                assert forall|b: u32| b < bkt implies #[trigger] self.whole(b) by {
                    assert(m.whole(b));
                }
            }
            let ghost es = entries_in(page@);
            let n: usize = read_count(page.as_slice());
            let ghost base = sum;
            let mut i: usize = 0;
            while i < n
                invariant
                    i <= n <= BUCKET_CAP,
                    n == es.len(),
                    page@.len() == PAGE_SIZE,
                    es == entries_in(page@),
                    base <= bkt * 0x1FF_0000_0000_0000_0000,
                    bkt < u32::MAX,
                    sum == base + value_sum(es.take(i as int)),
                    sum <= base + i * 0x1_0000_0000_0000_0000,
                decreases n - i,
            {
                sum = sum + entry(page.as_slice(), i).1 as u128;
                proof {
                    let t = es.take(i + 1);
                    assert(t.drop_last() =~= es.take(i as int));
                    assert(t.last() == es[i as int]);
                }
                i = i + 1;
            }
            assert(es.take(n as int) =~= es);
            bkt = bkt + 1;
        }
        Ok(sum)
    }

    /// A store of `buckets` empty buckets on `file`, written and synced, cached in
    /// `frames` frames.
    pub fn create(file: F, buckets: u32, frames: usize) -> (r: Result<Self, KvError>)
        requires
            buckets > 0,
            frames > 0,
            file.image().len() < 0x2000_0000_0000,
        ensures
            r matches Ok(kv) ==> {
                &&& kv.buckets == buckets
                &&& kv.cache.dir.next_page == kv.cache.file.image().len() as int / PAGE_SIZE as int
                    ==> kv.wf()
                &&& kv.healthy()
                &&& forall|b: u32| b < buckets ==> #[trigger] kv.entries(b) == Seq::<
                    (Key, Val),
                >::empty()
                &&& forall|k: Key| #[trigger] kv.at(k) is None
                &&& kv.cache.all_clean()
                &&& kv.cache.file.synced()
                &&& file.reliable() ==> kv.wf()
                &&& kv.cache.file.reliable() == file.reliable()
            },
            r matches Err(e) ==> e is Cache && !(file.reliable() && 0x2000_0000_0000 <= usize::MAX),
    {
        let mut disk = file;
        let mut page: Vec<u8> = vec![0u8;PAGE_SIZE];
        write_count(page.as_mut_slice(), 0);
        seal(&mut page);
        proof {
            assert(count_in(page@) == 0);
            assert(entries_in(page@) =~= Seq::<(Key, Val)>::empty());
        }
        let mut b: u32 = 0;
        while b < buckets
            invariant
                b <= buckets,
                page@.len() == PAGE_SIZE,
                disk.reliable() == file.reliable(),
                disk.image().len() < 0x2000_0000_0000,
                forall|c: u32|
                    c < b ==> has_page(disk.image(), c) && #[trigger] page_at(disk.image(), c)
                        == page@,
            decreases buckets - b,
        {
            let ghost image = disk.image();
            match disk.write_at(&page, page_offset(b)) {
                Ok(()) => {},
                Err(e) => {
                    return Err(KvError::Cache(CacheError::Io(e)));
                },
            }
            proof {
                lemma_write_page(image, b, page@);
                assert forall|c: u32| c < b + 1 implies has_page(disk.image(), c)
                    && #[trigger] page_at(disk.image(), c) == page@ by {
                    if c < b {
                        assert(page_at(image, c) == page@);
                    }
                }
            }
            b = b + 1;
        }
        match disk.sync() {
            Ok(()) => {},
            Err(e) => {
                return Err(KvError::Cache(CacheError::Io(e)));
            },
        }
        let ghost image = disk.image();
        let kv = PagedKv { cache: PageCache::open(disk, frames), buckets };
        proof {
            assert forall|c: u32| c < buckets implies #[trigger] kv.whole(c) && kv.entries(c)
                == Seq::<(Key, Val)>::empty() by {
                assert(page_at(image, c) == page@);
            }
            assert forall|c: u32| c < buckets implies #[trigger] kv.entries(c) == Seq::<
                (Key, Val),
            >::empty() by {
                assert(kv.whole(c));
            }
            assert forall|k: Key| #[trigger] kv.at(k) is None by {
                let c = hash(k, buckets);
                lemma_hash(k, buckets);
                assert(kv.whole(c));
                lemma_first_at(kv.entries(c), k);
            }
        }
        Ok(kv)
    }

    /// Re-open a store whose file already holds `buckets` bucket pages.
    pub fn open(file: F, buckets: u32, frames: usize) -> (kv: Self)
        requires
            buckets > 0,
            frames > 0,
            file.image().len() < 0x2000_0000_0000,
        ensures
            kv.buckets == buckets,
            kv.cache.dir.next_page == file.image().len() as int / PAGE_SIZE as int ==> kv.wf(),
            file.reliable() ==> kv.wf(),
            kv.cache.file.reliable() == file.reliable(),
            kv.cache.file.image() == file.image(),
            kv.cache.fmt == (PageFormat { lsn_at: None, checked: false }),
            kv.cache.dir.map@ == Map::<PageId, usize>::empty(),
            forall|b: u32| #[trigger]
                kv.page(b) == if has_page(file.image(), b) {
                    Some(page_at(file.image(), b))
                } else {
                    None
                },
    {
        PagedKv { cache: PageCache::open(file, frames), buckets }
    }
}

proof fn lemma_kv_keeps<F: BlockFile>(a: &PagedKv<F>, m: &PagedKv<F>, z: &PagedKv<F>)
    requires
        m.keeps(a),
        z.keeps(m),
    ensures
        z.keeps(a),
{
    assert forall|p: PageId| (#[trigger] a.cache.content(p)) is Some implies z.cache.content(p)
        == a.cache.content(p) by {
        assert(m.cache.content(p) == a.cache.content(p));
    }
}

proof fn lemma_sum_kept<F: BlockFile>(a: &PagedKv<F>, z: &PagedKv<F>, n: int)
    requires
        z.keeps(a),
        n <= u32::MAX,
        forall|b: u32| b < n ==> #[trigger] a.whole(b),
    ensures
        z.sum_to(n) == a.sum_to(n),
    decreases n,
{
    if n > 0 {
        lemma_sum_kept(a, z, n - 1);
        assert(a.whole((n - 1) as u32));
    }
}

/// A write under one key leaves what every other key holds.
pub proof fn law_writes_do_not_interfere<F: BlockFile>(
    before: &PagedKv<F>,
    after: &PagedKv<F>,
    k: Key,
    v: Val,
    other: Key,
)
    requires
        before.wf(),
        before.healthy(),
        after.wrote(before, k, v),
        other != k,
    ensures
        after.at(k) == Some(v),
        after.at(other) == before.at(other),
        after.healthy(),
{
    let b = hash(k, before.buckets);
    let o = hash(other, before.buckets);
    lemma_hash(k, before.buckets);
    lemma_hash(other, before.buckets);
    assert(before.whole(b) && before.whole(o));
    law_stored_key_reads_back(before.entries(b), k, v, other);
    assert forall|c: u32| c < after.buckets implies #[trigger] after.whole(c) by {
        assert(before.whole(c));
    }
}

proof fn lemma_hash(k: Key, buckets: u32)
    requires
        buckets > 0,
    ensures
        hash(k, buckets) < buckets,
{
    let h = (k.wrapping_mul(0x9E37_79B9_7F4A_7C15) >> 32) as u32;
    assert(h % buckets < buckets) by (nonlinear_arith)
        requires
            buckets > 0,
    ;
}

/// What a checkpointed store holds is there when its file is opened again.
pub proof fn law_checkpointed_store_survives_reopen<F: BlockFile>(
    a: &PagedKv<F>,
    b: &PagedKv<F>,
    k: Key,
)
    requires
        a.wf(),
        a.healthy(),
        a.cache.all_clean(),
        b.buckets == a.buckets,
        b.cache.file.image() == a.cache.file.image(),
        b.cache.fmt == a.cache.fmt,
        b.cache.dir.map@ == Map::<PageId, usize>::empty(),
    ensures
        b.healthy(),
        b.at(k) == a.at(k),
{
    assert forall|c: u32| c < b.buckets implies #[trigger] b.whole(c) && b.page(c) == a.page(c) by {
        assert(a.whole(c));
        law_checkpoint_survives_reopen(&a.cache, &b.cache, c);
    }
    lemma_hash(k, a.buckets);
    assert(b.whole(hash(k, a.buckets)));
}

} // verus!
