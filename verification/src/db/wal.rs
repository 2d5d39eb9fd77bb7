//! The statement log: records framed by a magic number, their length and a CRC,
//! one after the other. A torn tail is dropped whole, never half-read.

use vstd::prelude::*;

use crate::bytes::{copy_bytes, le32, le32_bytes, lemma_le32_bytes, push_u32, rd_u32};
use crate::page::crc::{crc32, crc_of, lemma_one_changed_byte_is_detected};
use crate::vfs::{overwritten, BlockFile, IoError};

verus! {

pub const LOG_MAGIC: u32 = 0x4B4C_4F47;

const HEADER: usize = 12;

/// A record as it stands in the log.
pub open spec fn framed(rec: Seq<u8>) -> Seq<u8> {
    le32_bytes(LOG_MAGIC) + le32_bytes(rec.len() as u32) + le32_bytes(crc_of(rec)) + rec
}

/// The record framed at `pos`, if there is a whole one.
#[verifier::opaque]
pub open spec fn frame_at(b: Seq<u8>, pos: int) -> Option<Seq<u8>> {
    let len = le32(b, pos + 4);
    if 0 <= pos && pos + 12 <= b.len() && le32(b, pos) == LOG_MAGIC && pos + 12 + len <= b.len() && crc_of(
        b.subrange(pos + 12, pos + 12 + len),
    ) == le32(b, pos + 8) {
        Some(b.subrange(pos + 12, pos + 12 + len))
    } else {
        None
    }
}

/// A framed record lies inside the log.
pub proof fn lemma_frame_fits(b: Seq<u8>, pos: int)
    ensures
        frame_at(b, pos) matches Some(r) ==> 0 <= pos && pos + 12 + r.len() <= b.len(),
        pos >= b.len() ==> frame_at(b, pos) is None,
{
    reveal(frame_at);
}

/// The records from `pos` on, up to the first place that holds none.
pub open spec fn records_from(b: Seq<u8>, pos: int) -> Seq<Seq<u8>>
    decreases b.len() - pos,
{
    proof {
        lemma_frame_fits(b, pos);
    }
    match frame_at(b, pos) {
        Some(r) => seq![r] + records_from(b, pos + 12 + r.len()),
        None => Seq::empty(),
    }
}

/// Where those records end.
pub open spec fn end_from(b: Seq<u8>, pos: int) -> int
    decreases b.len() - pos,
{
    proof {
        lemma_frame_fits(b, pos);
    }
    match frame_at(b, pos) {
        Some(r) => end_from(b, pos + 12 + r.len()),
        None => pos,
    }
}

/// What a list of records is.
pub open spec fn recs(v: Seq<Vec<u8>>) -> Seq<Seq<u8>> {
    v.map_values(|r: Vec<u8>| r@)
}

/// Read the record framed at `pos`.
fn read_frame(b: &Vec<u8>, pos: usize) -> (r: Option<Vec<u8>>)
    requires
        pos <= b@.len(),
    ensures
        match r {
            Some(v) => frame_at(b@, pos as int) == Some(v@),
            None => frame_at(b@, pos as int) is None,
        },
{
    let total: usize = b.len();
    proof {
        reveal(frame_at);
    }
    if total - pos < HEADER {
        return None;
    }
    if rd_u32(b.as_slice(), pos) != LOG_MAGIC {
        return None;
    }
    let len: usize = rd_u32(b.as_slice(), pos + 4) as usize;
    let crc: u32 = rd_u32(b.as_slice(), pos + 8);
    let start: usize = pos + HEADER;
    if len > total - start {
        return None;
    }
    let rec: Vec<u8> = copy_bytes(&b.as_slice()[start..start + len]);
    assert(rec@ =~= b@.subrange(pos + 12, pos + 12 + len));
    if crc32(rec.as_slice()) != crc {
        return None;
    }
    Some(rec)
}

proof fn lemma_next(b: Seq<u8>, pos: int, r: Seq<u8>)
    requires
        0 <= pos,
        frame_at(b, pos) == Some(r),
    ensures
        records_from(b, pos) == seq![r] + records_from(b, pos + 12 + r.len()),
        end_from(b, pos) == end_from(b, pos + 12 + r.len()),
        pos + 12 + r.len() <= b.len(),
{
    lemma_frame_fits(b, pos);
}

/// Read the records from the start, and where they end.
fn read_all(all: &Vec<u8>) -> (r: (Vec<Vec<u8>>, usize))
    ensures
        recs(r.0@) == records_from(all@, 0),
        r.1 == end_from(all@, 0),
{
    let ghost image = all@;
    let total: usize = all.len();
    let mut out: Vec<Vec<u8>> = Vec::new();
    let mut pos: usize = 0;
    let mut next: Option<Vec<u8>> = read_frame(all, 0);
    assert(recs(out@) + records_from(image, 0) =~= records_from(image, 0));
    while next.is_some()
        invariant
            all@ == image,
            pos <= total == image.len(),
            match next {
                Some(v) => frame_at(image, pos as int) == Some(v@),
                None => frame_at(image, pos as int) is None,
            },
            recs(out@) + records_from(image, pos as int) == records_from(image, 0),
            end_from(image, pos as int) == end_from(image, 0),
        decreases image.len() - pos,
    {
        if let Some(r) = next {
            let ghost was = recs(out@);
            let ghost rv = r@;
            let ghost rest = records_from(image, pos + 12 + rv.len());
            proof {
                lemma_next(image, pos as int, rv);
            }
            pos = pos + HEADER + r.len();
            out.push(r);
            proof {
                assert(recs(out@) =~= was.push(rv));
                assert(was + (seq![rv] + rest) =~= was.push(rv) + rest);
            }
        }
        next = read_frame(all, pos);
    }
    assert(recs(out@) + Seq::<Seq<u8>>::empty() =~= recs(out@));
    (out, pos)
}

/// An append-only log on a file.
pub struct StmtLog<F: BlockFile> {
    pub file: F,
    pub end: u64,
}

impl<F: BlockFile> StmtLog<F> {
    pub fn open(file: F) -> (l: Self)
        ensures
            l.file == file,
            l.end == 0,
    {
        StmtLog { file, end: 0 }
    }

    /// Append a record and make it durable.
    pub fn append(&mut self, rec: &[u8]) -> (r: Result<(), IoError>)
        requires
            rec@.len() <= u32::MAX,
            rec@.len() + 12 <= usize::MAX,
            old(self).end + rec@.len() + 12 <= u64::MAX,
        ensures
            final(self).file.reliable() == old(self).file.reliable(),
            match r {
                Ok(()) => {
                    &&& final(self).file.image() == overwritten(
                        old(self).file.image(),
                        old(self).end as int,
                        framed(rec@),
                    )
                    &&& final(self).end == old(self).end + 12 + rec@.len()
                    &&& final(self).file.synced()
                },
                Err(_) => {
                    &&& final(self).end == old(self).end
                    &&& final(self).file.image().take(old(self).end as int) =~= old(self).file.image().take(old(self).end as int) || old(self).end
                        > old(self).file.image().len()
                    &&& final(self).file.image().len() >= old(self).file.image().len()
                    &&& !(old(self).file.reliable() && old(self).end + 12 + rec@.len()
                        <= usize::MAX)
                },
            },
    {
        let mut buf: Vec<u8> = Vec::with_capacity(HEADER + rec.len());
        push_u32(&mut buf, LOG_MAGIC);
        push_u32(&mut buf, rec.len() as u32);
        push_u32(&mut buf, crc32(rec));
        buf.extend_from_slice(rec);
        proof {
            assert(buf@ =~= framed(rec@));
            assert(framed(rec@).len() == 12 + rec@.len());
        }
        let off: u64 = self.end;
        let n: u64 = buf.len() as u64;
        match self.file.write_at(&buf, off) {
            Ok(()) => {},
            Err(e) => {
                return Err(e);
            },
        }
        match self.file.sync() {
            Ok(()) => {},
            Err(e) => {
                return Err(e);
            },
        }
        self.end = off + n;
        Ok(())
    }

    /// The records of the log; appending goes on behind the last of them.
    pub fn replay(&mut self) -> (r: Result<Vec<Vec<u8>>, IoError>)
        requires
            old(self).file.image().len() <= usize::MAX,
        ensures
            final(self).file.image() == old(self).file.image(),
            final(self).file.reliable() == old(self).file.reliable(),
            match r {
                Ok(v) => {
                    &&& recs(v@) == records_from(old(self).file.image(), 0)
                    &&& final(self).end == end_from(old(self).file.image(), 0)
                },
                Err(_) => final(self).end == old(self).end && !old(self).file.reliable(),
            },
    {
        let ghost image = self.file.image();
        let size: usize = match self.file.size() {
            Ok(n) => n as usize,
            Err(e) => {
                return Err(e);
            },
        };
        let mut all: Vec<u8> = vec![0u8;size];
        if size > 0 {
            match self.file.read_at(&mut all, 0) {
                Ok(()) => {},
                Err(e) => {
                    return Err(e);
                },
            }
        }
        assert(all@ =~= image);
        let (out, pos): (Vec<Vec<u8>>, usize) = read_all(&all);
        self.end = pos as u64;
        Ok(out)
    }
}

// ---- laws ----

proof fn lemma_end(b: Seq<u8>, pos: int)
    ensures
        end_from(b, pos) >= pos,
        0 <= pos <= b.len() ==> end_from(b, pos) <= b.len(),
        frame_at(b, end_from(b, pos) as int) is None,
    decreases b.len() - pos,
{
    lemma_frame_fits(b, pos);
    match frame_at(b, pos as int) {
        Some(r) => {
            lemma_end(b, pos + 12 + r.len());
        },
        None => {},
    }
}

/// A log that agrees with another up to where the other's records end has those
/// records first.
proof fn lemma_agree(a: Seq<u8>, b: Seq<u8>, pos: int)
    requires
        0 <= pos <= a.len(),
        end_from(a, pos) <= b.len(),
        forall|i: int| 0 <= i < end_from(a, pos) ==> #[trigger] b[i] == a[i],
    ensures
        records_from(b, pos) == records_from(a, pos) + records_from(b, end_from(a, pos)),
    decreases a.len() - pos,
{
    reveal(frame_at);
    match frame_at(a, pos as int) {
        Some(r) => {
            let next = pos + 12 + r.len();
            lemma_end(a, next);
            lemma_agree(a, b, next);
            let len = le32(a, pos + 4);
            assert(b.subrange(pos + 12, pos + 12 + len) =~= a.subrange(pos + 12, pos + 12 + len));
            assert(frame_at(b, pos as int) == Some(r));
            assert(records_from(b, pos) =~= records_from(a, pos) + records_from(
                b,
                end_from(a, pos),
            ));
        },
        None => {
            assert(Seq::<Seq<u8>>::empty() + records_from(b, pos) =~= records_from(b, pos));
        },
    }
}

/// Whatever becomes of the log behind its last record, the records it had are still
/// its first ones.
pub proof fn law_later_damage_spares_earlier_records(a: Seq<u8>, b: Seq<u8>)
    requires
        end_from(a, 0) <= b.len(),
        b.take(end_from(a, 0)) == a.take(end_from(a, 0)),
    ensures
        records_from(a, 0).is_prefix_of(records_from(b, 0)),
{
    let e = end_from(a, 0);
    lemma_end(a, 0);
    assert forall|i: int| 0 <= i < e implies #[trigger] b[i] == a[i] by {
        assert(b.take(e)[i] == a.take(e)[i]);
    }
    lemma_agree(a, b, 0);
    assert(records_from(a, 0) =~= records_from(b, 0).take(records_from(a, 0).len() as int));
}

/// An appended record is replayed behind those that were there, and nothing is
/// replayed behind it where no old frame happens to start there.
pub proof fn law_appended_record_is_replayed(a: Seq<u8>, rec: Seq<u8>)
    requires
        rec.len() <= u32::MAX,
        frame_at(
            overwritten(a, end_from(a, 0), framed(rec)),
            end_from(a, 0) + 12 + rec.len(),
        ) is None,
    ensures
        records_from(overwritten(a, end_from(a, 0), framed(rec)), 0) == records_from(
            a,
            0,
        ).push(rec),
        end_from(overwritten(a, end_from(a, 0), framed(rec)), 0) == end_from(a, 0) + 12
            + rec.len(),
{
    let e = end_from(a, 0);
    let f = framed(rec);
    let b = overwritten(a, e as int, f);
    lemma_end(a, 0);
    assert(f.len() == 12 + rec.len());
    assert(b.subrange(e, e + f.len()) =~= f);
    lemma_framed(b, e, rec);
    lemma_agree(a, b, 0);
    assert(records_from(b, e + 12 + rec.len()) =~= Seq::empty());
    assert(records_from(b, e) =~= seq![rec]);
    assert(records_from(a, 0) + seq![rec] =~= records_from(a, 0).push(rec));
    lemma_same_end(a, b, 0);
    assert(end_from(b, e) == end_from(b, e + 12 + rec.len()));
}

proof fn lemma_framed(b: Seq<u8>, e: int, rec: Seq<u8>)
    requires
        0 <= e,
        rec.len() <= u32::MAX,
        e + 12 + rec.len() <= b.len(),
        b.subrange(e, e + 12 + rec.len()) == framed(rec),
    ensures
        frame_at(b, e) == Some(rec),
{
    reveal(frame_at);
    let f = framed(rec);
    let g = b.subrange(e, e + 12 + rec.len());
    assert(b.subrange(e, e + 4) =~= g.subrange(0, 4));
    assert(b.subrange(e + 4, e + 8) =~= g.subrange(4, 8));
    assert(b.subrange(e + 8, e + 12) =~= g.subrange(8, 12));
    assert(b.subrange(e + 12, e + 12 + rec.len()) =~= g.subrange(12, g.len() as int));
    assert(f.subrange(0, 4) =~= le32_bytes(LOG_MAGIC));
    assert(f.subrange(4, 8) =~= le32_bytes(rec.len() as u32));
    assert(f.subrange(8, 12) =~= le32_bytes(crc_of(rec)));
    assert(f.subrange(12, f.len() as int) =~= rec);
    lemma_le32_bytes(b, e, LOG_MAGIC);
    lemma_le32_bytes(b, e + 4, rec.len() as u32);
    lemma_le32_bytes(b, e + 8, crc_of(rec));
}

proof fn lemma_same_end(a: Seq<u8>, b: Seq<u8>, pos: int)
    requires
        0 <= pos <= a.len(),
        end_from(a, pos) <= b.len(),
        forall|i: int| 0 <= i < end_from(a, pos) ==> #[trigger] b[i] == a[i],
    ensures
        end_from(b, pos) == end_from(b, end_from(a, pos)),
    decreases a.len() - pos,
{
    reveal(frame_at);
    match frame_at(a, pos as int) {
        Some(r) => {
            let next = pos + 12 + r.len();
            lemma_end(a, next);
            lemma_same_end(a, b, next);
            let len = le32(a, pos + 4);
            assert(b.subrange(pos + 12, pos + 12 + len) =~= a.subrange(pos + 12, pos + 12 + len));
            assert(frame_at(b, pos as int) == Some(r));
        },
        None => {},
    }
}

/// A log cut anywhere replays a prefix of its records: a torn tail is dropped whole.
pub proof fn law_torn_log_replays_a_prefix(a: Seq<u8>, n: int)
    requires
        0 <= n <= a.len(),
    ensures
        records_from(a.take(n), 0).is_prefix_of(records_from(a, 0)),
{
    lemma_torn(a, n, 0);
}

proof fn lemma_torn(a: Seq<u8>, n: int, pos: int)
    requires
        0 <= n <= a.len(),
        0 <= pos,
    ensures
        records_from(a.take(n), pos).is_prefix_of(records_from(a, pos)),
    decreases a.len() - pos,
{
    let b = a.take(n);
    reveal(frame_at);
    match frame_at(b, pos as int) {
        Some(r) => {
            let len = le32(b, pos + 4);
            assert(b.subrange(pos + 12, pos + 12 + len) =~= a.subrange(pos + 12, pos + 12 + len));
            assert(frame_at(a, pos as int) == Some(r));
            let next = pos + 12 + r.len();
            lemma_torn(a, n, next);
            let x = records_from(b, next);
            let y = records_from(a, next);
            assert(x =~= y.take(x.len() as int));
            assert(seq![r] + x =~= (seq![r] + y).take((seq![r] + x).len() as int));
        },
        None => {
            assert(records_from(b, pos) =~= records_from(a, pos).take(0));
        },
    }
}

/// A record of which a byte was changed is not read: the checksum in front of it tells.
pub proof fn law_changed_records_are_not_read(rec: Seq<u8>, i: int, x: u8)
    requires
        rec.len() <= u32::MAX,
        0 <= i < rec.len(),
        rec[i] != x,
    ensures
        frame_at(framed(rec), 0) == Some(rec),
        frame_at(framed(rec).update(12 + i, x), 0) is None,
{
    reveal(frame_at);
    let f = framed(rec);
    let g = f.update(12 + i, x);
    let n = rec.len() as int;
    assert(f.subrange(0, 4) =~= le32_bytes(LOG_MAGIC));
    assert(f.subrange(4, 8) =~= le32_bytes(n as u32));
    assert(f.subrange(8, 12) =~= le32_bytes(crc_of(rec)));
    lemma_le32_bytes(f, 0, LOG_MAGIC);
    lemma_le32_bytes(f, 4, n as u32);
    lemma_le32_bytes(f, 8, crc_of(rec));
    assert(g.subrange(0, 4) =~= le32_bytes(LOG_MAGIC));
    assert(g.subrange(4, 8) =~= le32_bytes(n as u32));
    assert(g.subrange(8, 12) =~= le32_bytes(crc_of(rec)));
    lemma_le32_bytes(g, 0, LOG_MAGIC);
    lemma_le32_bytes(g, 4, n as u32);
    lemma_le32_bytes(g, 8, crc_of(rec));
    assert(f.subrange(12, 12 + n) =~= rec);
    assert(g.subrange(12, 12 + n) =~= rec.update(i, x));
    lemma_one_changed_byte_is_detected(rec, i, x);
}

/// Where the file holds zeros there is no record.
pub proof fn law_blank_space_holds_no_record(b: Seq<u8>, pos: int)
    requires
        forall|k: int| pos <= k < pos + 4 ==> #[trigger] b[k] == 0,
    ensures
        frame_at(b, pos) is None,
{
    reveal(frame_at);
    assert(b[pos] == 0 && b[pos + 1] == 0 && b[pos + 2] == 0 && b[pos + 3] == 0);
}

} // verus!
