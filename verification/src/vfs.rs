//! Block files: byte images that are read and written at offsets.

use vstd::prelude::*;

use crate::bytes::{copy_bytes, splice, write_bytes};

verus! {

/// Why a block file refused.
#[derive(Clone, Copy, Debug, PartialEq, Eq, Structural)]
pub enum IoError {
    /// The end of the range does not fit an address.
    InvalidInput,
    /// The range reaches past the end of the file.
    UnexpectedEof,
    /// The device failed.
    Device,
}

/// The image extended with zeros to at least `end` bytes.
pub open spec fn extended(image: Seq<u8>, end: int) -> Seq<u8> {
    if image.len() < end {
        image + Seq::new((end - image.len()) as nat, |i: int| 0u8)
    } else {
        image
    }
}

/// The image with `d` at `at`, extended with zeros where it was shorter.
pub open spec fn overwritten(image: Seq<u8>, at: int, d: Seq<u8>) -> Seq<u8> {
    splice(extended(image, at + d.len()), at, d)
}

/// The image cut or extended with zeros to `len` bytes.
pub open spec fn resized(image: Seq<u8>, len: int) -> Seq<u8> {
    if image.len() < len {
        extended(image, len)
    } else {
        image.take(len)
    }
}

/// Outside `[at, at + len)` the two images hold the same bytes, and the second is
/// no shorter than the first.
pub open spec fn differs_only_at(a: Seq<u8>, b: Seq<u8>, at: int, len: int) -> bool {
    &&& a.len() <= b.len()
    &&& forall|i: int| 0 <= i < a.len() && !(at <= i < at + len) ==> #[trigger] b[i] == a[i]
}

/// What a file holds, byte by byte.
pub type Image = Seq<u8>;

/// A file that is read and written in blocks.
pub trait BlockFile: Sized {
    /// What the file holds.
    spec fn image(&self) -> Image;

    /// The device never fails: it refuses only what lies out of range.
    spec fn reliable(&self) -> bool;

    /// All that the file holds is durable.
    spec fn synced(&self) -> bool;

    /// Fill `buf` from `offset` on.
    fn read_at(&mut self, buf: &mut Vec<u8>, offset: u64) -> (r: Result<(), IoError>)
        ensures
            final(self).image() == old(self).image(),
            final(self).reliable() == old(self).reliable(),
            final(self).synced() == old(self).synced(),
            final(buf)@.len() == old(buf)@.len(),
            r is Ok ==> offset + old(buf)@.len() <= old(self).image().len() && final(buf)@
                == old(self).image().subrange(offset as int, offset + old(buf)@.len()),
            old(self).reliable() && offset + old(buf)@.len() <= old(self).image().len() ==> r is Ok,
    ;

    /// Write `buf` at `offset`, extending the file where it is shorter. A failed
    /// write may have written a part.
    fn write_at(&mut self, buf: &Vec<u8>, offset: u64) -> (r: Result<(), IoError>)
        ensures
            final(self).reliable() == old(self).reliable(),
            r is Ok ==> final(self).image() == overwritten(
                old(self).image(),
                offset as int,
                buf@,
            ),
            r is Err ==> differs_only_at(
                old(self).image(),
                final(self).image(),
                offset as int,
                buf@.len() as int,
            ) && final(self).image().len() <= extended(
                old(self).image(),
                offset + buf@.len(),
            ).len(),
            old(self).reliable() && offset + buf@.len() <= usize::MAX ==> r is Ok,
    ;

    /// Make everything written durable.
    fn sync(&mut self) -> (r: Result<(), IoError>)
        ensures
            final(self).image() == old(self).image(),
            final(self).reliable() == old(self).reliable(),
            r is Ok ==> final(self).synced(),
            old(self).reliable() ==> r is Ok,
    ;

    /// The length of the file in bytes.
    fn size(&mut self) -> (r: Result<u64, IoError>)
        ensures
            final(self).image() == old(self).image(),
            final(self).reliable() == old(self).reliable(),
            final(self).synced() == old(self).synced(),
            r matches Ok(n) ==> n == old(self).image().len(),
            old(self).reliable() ==> r is Ok,
    ;

    /// Cut or extend the file.
    fn set_len(&mut self, len: u64) -> (r: Result<(), IoError>)
        ensures
            final(self).reliable() == old(self).reliable(),
            r is Ok ==> final(self).image() == resized(old(self).image(), len as int),
            r is Err ==> final(self).image() == old(self).image(),
            old(self).reliable() && len <= usize::MAX ==> r is Ok,
    ;
}

/// An offset as an index, where it is one.
pub fn index_of(offset: u64) -> (r: Option<usize>)
    ensures
        match r {
            Some(i) => i == offset,
            None => offset > usize::MAX,
        },
{
    if offset <= usize::MAX as u64 {
        Some(offset as usize)
    } else {
        None
    }
}

/// Extend an image with zeros to at least `end` bytes.
pub fn ensure_len(image: &mut Vec<u8>, end: usize)
    ensures
        final(image)@ == extended(old(image)@, end as int),
{
    if image.len() < end {
        image.resize(end, 0);
        assert(image@ =~= extended(old(image)@, end as int));
    }
}

/// Put `d` into an image at `at`.
pub fn put_at(image: &mut Vec<u8>, at: usize, d: &[u8])
    requires
        at + d@.len() <= usize::MAX,
    ensures
        final(image)@ == overwritten(old(image)@, at as int, d@),
{
    ensure_len(image, at + d.len());
    write_bytes(image.as_mut_slice(), at, d);
}

/// A block file in memory.
pub struct MemDisk {
    pub bytes: Vec<u8>,
}

impl MemDisk {
    /// An empty disk.
    pub fn new() -> (d: MemDisk)
        ensures
            d.image() == Seq::<u8>::empty(),
    {
        MemDisk { bytes: Vec::new() }
    }

    /// A copy of the image.
    pub fn snapshot(&self) -> (v: Vec<u8>)
        ensures
            v@ == self.image(),
    {
        copy_bytes(self.bytes.as_slice())
    }

    /// Replace the image.
    pub fn install(&mut self, image: Vec<u8>)
        ensures
            final(self).image() == image@,
    {
        self.bytes = image;
    }
}

impl BlockFile for MemDisk {
    open spec fn image(&self) -> Seq<u8> {
        self.bytes@
    }

    open spec fn reliable(&self) -> bool {
        true
    }

    open spec fn synced(&self) -> bool {
        true
    }

    fn read_at(&mut self, buf: &mut Vec<u8>, offset: u64) -> (r: Result<(), IoError>)
        ensures
            r is Ok <==> offset + old(buf)@.len() <= old(self).image().len(),
    {
        let n: usize = buf.len();
        let have: usize = self.bytes.len();
        if offset > have as u64 || n as u64 > have as u64 - offset {
            return Err(IoError::UnexpectedEof);
        }
        let at: usize = offset as usize;
        write_bytes(buf.as_mut_slice(), 0, &self.bytes.as_slice()[at..at + n]);
        assert(buf@ =~= self.bytes@.subrange(at as int, at + n));
        Ok(())
    }

    fn write_at(&mut self, buf: &Vec<u8>, offset: u64) -> (r: Result<(), IoError>)
        ensures
            r is Ok <==> offset + buf@.len() <= usize::MAX,
    {
        let n: usize = buf.len();
        match index_of(offset) {
            Some(at) => {
                if n > usize::MAX - at {
                    return Err(IoError::InvalidInput);
                }
                put_at(&mut self.bytes, at, buf.as_slice());
                Ok(())
            },
            None => Err(IoError::InvalidInput),
        }
    }

    fn sync(&mut self) -> (r: Result<(), IoError>) {
        Ok(())
    }

    fn size(&mut self) -> (r: Result<u64, IoError>) {
        Ok(self.bytes.len() as u64)
    }

    fn set_len(&mut self, len: u64) -> (r: Result<(), IoError>)
        ensures
            r is Ok <==> len <= usize::MAX,
    {
        match index_of(len) {
            Some(n) => {
                self.bytes.resize(n, 0);
                assert(self.bytes@ =~= resized(old(self).bytes@, len as int));
                Ok(())
            },
            None => Err(IoError::InvalidInput),
        }
    }
}

/// Writing puts the bytes where they are written, makes the file as long as it takes, fills
/// what lies before them with zeros where the file was shorter, and changes no other byte.
pub proof fn law_writes_go_where_they_are_written(image: Seq<u8>, at: int, d: Seq<u8>)
    requires
        at >= 0,
    ensures
        overwritten(image, at, d).len() == if image.len() < at + d.len() {
            at + d.len()
        } else {
            image.len() as int
        },
        overwritten(image, at, d).subrange(at, at + d.len()) == d,
        forall|i: int|
            0 <= i < image.len() && !(at <= i < at + d.len()) ==> #[trigger] overwritten(
                image,
                at,
                d,
            )[i] == image[i],
        forall|i: int| image.len() <= i < at ==> #[trigger] overwritten(image, at, d)[i] == 0,
{
    assert(overwritten(image, at, d).subrange(at, at + d.len()) =~= d);
}

/// A file that is given a length has it: what is cut off is gone, what is kept is the same, and
/// what is new is zero.
pub proof fn law_resizing_keeps_what_fits(image: Seq<u8>, len: int)
    requires
        len >= 0,
    ensures
        resized(image, len).len() == len,
        forall|i: int|
            0 <= i < len ==> #[trigger] resized(image, len)[i] == if i < image.len() {
                image[i]
            } else {
                0
            },
{
}

} // verus!
