use vstd::prelude::*;

verus! {

/// The byte-addressable resource under an array could not serve a seek, a
/// read or a write.
#[derive(Clone, Copy, Debug, PartialEq, Eq, Structural)]
pub struct StorageError;

/// The byte of `c` at position `x`, with positions outside the sequence read
/// as zero: a resource behaves as an unbounded zero-filled byte run of which
/// only a prefix is materialized.
pub open spec fn byte_at(c: Seq<u8>, x: int) -> u8 {
    if 0 <= x < c.len() {
        c[x]
    } else {
        0u8
    }
}

/// The byte at offset `d` from base `at`: the form offset reasoning and its
/// quantifier triggers use.
pub open spec fn byte_at_off(c: Seq<u8>, at: int, d: int) -> u8 {
    byte_at(c, at + d)
}

/// An all-zero byte run of length `n`.
pub open spec fn zero_bytes(n: nat) -> Seq<u8> {
    Seq::new(n, |i: int| 0u8)
}

/// The contents of a resource after writing `bytes` at position `at`: bytes
/// before `at` are kept, a gap between the old end and `at` is zero-filled,
/// and bytes after the written run are kept.
pub open spec fn splice_write(pre: Seq<u8>, at: int, bytes: Seq<u8>) -> Seq<u8> {
    let padded = if pre.len() >= at {
        pre
    } else {
        pre + zero_bytes((at - pre.len()) as nat)
    };
    let tail = if padded.len() >= at + bytes.len() {
        padded.skip(at + bytes.len())
    } else {
        Seq::<u8>::empty()
    };
    padded.take(at) + bytes + tail
}

pub proof fn lemma_splice_write_len(pre: Seq<u8>, at: int, bytes: Seq<u8>)
    requires
        at >= 0,
    ensures
        splice_write(pre, at, bytes).len() == if pre.len() >= at + bytes.len() {
            pre.len() as int
        } else {
            at + bytes.len()
        },
{
}

/// Pointwise effect of a write: positions under the written run read the new
/// bytes, every other position reads as before (zero-filled gaps included).
pub proof fn lemma_splice_write_byte_at(pre: Seq<u8>, at: int, bytes: Seq<u8>, x: int)
    requires
        at >= 0,
    ensures
        byte_at(splice_write(pre, at, bytes), x) == if at <= x < at + bytes.len() {
            bytes[x - at]
        } else {
            byte_at(pre, x)
        },
{
}

/// A subrange of a subrange of a byte run, re-based to the outer run.
pub proof fn lemma_subrange_of_subrange(c: Seq<u8>, lo: int, hi: int, a: int, b: int)
    requires
        0 <= lo <= hi <= c.len(),
        0 <= a <= b <= hi - lo,
    ensures
        c.subrange(lo, hi).subrange(a, b) == c.subrange(lo + a, lo + b),
{
    assert(c.subrange(lo, hi).subrange(a, b) =~= c.subrange(lo + a, lo + b));
}

/// A seekable byte-addressable resource: the capability a virtual array needs
/// from its backing store.  `contents` is the whole byte run it holds and
/// `cursor` the position the next read or write starts at.  Any operation may
/// fail; a failed operation leaves the contents as they were.
pub trait Storage: Sized {
    /// The whole byte run the resource holds.  An implementation outside
    /// this crate may leave the default, an unspecified value; the library's
    /// guarantees then hold relative to whatever run the resource behaves
    /// as.
    open spec fn contents(&self) -> Seq<u8> {
        arbitrary()
    }

    /// The position the next read or write starts at.
    open spec fn cursor(&self) -> int {
        arbitrary()
    }

    /// Move the cursor to an absolute position.
    fn seek(&mut self, pos: usize) -> (r: Result<(), StorageError>)
        ensures
            final(self).contents() == old(self).contents(),
            r is Ok ==> final(self).cursor() == pos,
    ;

    /// Read exactly `count` bytes at the cursor; fails rather than returning
    /// a short read.
    fn read_exact(&mut self, count: usize) -> (r: Result<Vec<u8>, StorageError>)
        ensures
            final(self).contents() == old(self).contents(),
            r is Ok ==> {
                &&& 0 <= old(self).cursor()
                &&& old(self).cursor() + count <= old(self).contents().len()
                &&& r.unwrap()@ == old(self).contents().subrange(
                    old(self).cursor(),
                    old(self).cursor() + count,
                )
                &&& final(self).cursor() == old(self).cursor() + count
            },
    ;

    /// Write all of `bytes` at the cursor, extending the contents if needed;
    /// a failed write changes nothing.
    fn write_all(&mut self, bytes: &[u8]) -> (r: Result<(), StorageError>)
        ensures
            r is Ok ==> {
                &&& 0 <= old(self).cursor()
                &&& final(self).contents() == splice_write(
                    old(self).contents(),
                    old(self).cursor(),
                    bytes@,
                )
                &&& final(self).cursor() == old(self).cursor() + bytes@.len()
            },
            r is Err ==> final(self).contents() == old(self).contents(),
    ;

    /// Push buffered bytes down to the durable resource.
    fn flush(&mut self) -> (r: Result<(), StorageError>)
        ensures
            final(self).contents() == old(self).contents(),
            final(self).cursor() == old(self).cursor(),
    ;
}

/// An in-memory resource: a growable byte buffer with a cursor.  Every
/// operation within `usize` range succeeds.
pub struct MemStorage {
    data: Vec<u8>,
    pos: usize,
}

impl MemStorage {
    /// An empty resource.
    pub fn new() -> (r: MemStorage)
        ensures
            r.contents() == Seq::<u8>::empty(),
            r.cursor() == 0,
    {
        MemStorage { data: Vec::new(), pos: 0 }
    }

    /// A resource holding the given bytes, cursor at the start.
    pub fn from_bytes(data: Vec<u8>) -> (r: MemStorage)
        ensures
            r.contents() == data@,
            r.cursor() == 0,
    {
        MemStorage { data, pos: 0 }
    }

    /// The bytes currently held.
    pub fn bytes(&self) -> (r: &Vec<u8>)
        ensures
            r@ == self.contents(),
    {
        &self.data
    }
}

impl Storage for MemStorage {
    closed spec fn contents(&self) -> Seq<u8> {
        self.data@
    }

    closed spec fn cursor(&self) -> int {
        self.pos as int
    }

    fn seek(&mut self, pos: usize) -> (r: Result<(), StorageError>) {
        self.pos = pos;
        Ok(())
    }

    fn read_exact(&mut self, count: usize) -> (r: Result<Vec<u8>, StorageError>) {
        if count > self.data.len() {
            return Err(StorageError);
        }
        if self.pos > self.data.len() - count {
            return Err(StorageError);
        }
        let mut out: Vec<u8> = Vec::new();
        let mut i: usize = 0;
        while i < count
            invariant
                i <= count,
                self.pos + count <= self.data.len(),
                out@ == self.data@.subrange(self.pos as int, self.pos + i),
            decreases count - i,
        {
            out.push(self.data[self.pos + i]);
            i = i + 1;
            proof {
                assert(out@ =~= self.data@.subrange(self.pos as int, self.pos + i));
            }
        }
        self.pos = self.pos + count;
        Ok(out)
    }

    fn write_all(&mut self, bytes: &[u8]) -> (r: Result<(), StorageError>) {
        let ghost pre = self.data@;
        let ghost at = self.pos as int;
        if usize::MAX - self.pos < bytes.len() {
            return Err(StorageError);
        }
        // Zero-fill any gap between the current end and the cursor.
        while self.data.len() < self.pos
            invariant
                self.pos + bytes@.len() <= usize::MAX,
                at == self.pos,
                self.data@.len() >= pre.len(),
                self.data@.len() <= at || self.data@.len() == pre.len(),
                forall|x: int| 0 <= x < self.data@.len() ==> self.data@[x] == byte_at(pre, x),
            decreases self.pos - self.data.len(),
        {
            self.data.push(0u8);
        }
        // Overwrite in place, extending at the end.
        let mut j: usize = 0;
        while j < bytes.len()
            invariant
                j <= bytes@.len(),
                at + bytes@.len() <= usize::MAX,
                at == self.pos,
                self.data@.len() == if pre.len() >= at + j {
                    pre.len() as int
                } else {
                    at + j
                },
                self.data@.len() >= at,
                forall|x: int|
                    0 <= x < self.data@.len() ==> self.data@[x] == if at <= x < at + j {
                        bytes@[x - at]
                    } else {
                        byte_at(pre, x)
                    },
            decreases bytes@.len() - j,
        {
            if self.pos + j < self.data.len() {
                self.data[self.pos + j] = bytes[j];
            } else {
                self.data.push(bytes[j]);
            }
            j = j + 1;
        }
        proof {
            lemma_splice_write_len(pre, at, bytes@);
            assert forall|x: int| 0 <= x < self.data@.len() implies self.data@[x]
                == splice_write(pre, at, bytes@)[x] by {
                lemma_splice_write_byte_at(pre, at, bytes@, x);
            }
            assert(self.data@ =~= splice_write(pre, at, bytes@));
        }
        self.pos = self.pos + bytes.len();
        Ok(())
    }

    fn flush(&mut self) -> (r: Result<(), StorageError>) {
        Ok(())
    }
}

} // verus!
