//! The staging region's write view: a byte sink of fixed capacity that
//! counts exactly how many bytes it has taken, so the producer learns the
//! `end` offset of the valid range without any shared counter.

use vstd::prelude::*;

verus! {

/// Why a write into the staging region failed.
#[derive(Clone, Copy, PartialEq, Eq, Structural, Debug)]
pub enum StagingError {
    /// The write would run past the region's capacity.
    RegionFull,
}

/// A byte sink over a region pre-sized to `capacity` bytes. Writes append at
/// the current end; the count of written bytes is the valid range's `end`.
#[derive(Debug)]
pub struct SizedWriterBuffer {
    data: Vec<u8>,
    capacity: usize,
}

impl SizedWriterBuffer {
    /// The region's fixed capacity.
    pub closed spec fn capacity(&self) -> nat {
        self.capacity as nat
    }

    /// The bytes written so far, in order.
    pub closed spec fn written(&self) -> Seq<u8> {
        self.data@
    }

    /// The writes never exceed the capacity.
    pub open spec fn wf(&self) -> bool {
        self.written().len() <= self.capacity()
    }

    /// What a reader mapping the whole pre-sized backing file sees: the
    /// written bytes, then zero padding out to the capacity.
    pub open spec fn mapped_view(&self) -> Seq<u8> {
        self.written() + Seq::new((self.capacity() - self.written().len()) as nat, |i: int| 0u8)
    }

    /// A fresh, empty region of the given capacity.
    pub fn new(capacity: usize) -> (r: Self)
        ensures
            r.wf(),
            r.capacity() == capacity,
            r.written() == Seq::<u8>::empty(),
    {
        SizedWriterBuffer { data: Vec::new(), capacity }
    }

    /// Appends `buf` whole, or refuses it whole: a write succeeds exactly
    /// when it fits the remaining capacity, and then reports its full length.
    pub fn write(&mut self, buf: &[u8]) -> (r: Result<usize, StagingError>)
        requires
            old(self).wf(),
        ensures
            final(self).wf(),
            final(self).capacity() == old(self).capacity(),
            r is Ok <==> old(self).written().len() + buf@.len() <= old(self).capacity(),
            r is Ok ==> final(self).written() == old(self).written() + buf@ && r->Ok_0
                == buf@.len(),
            r is Err ==> *final(self) == *old(self) && r == Result::<
                usize,
                StagingError,
            >::Err(StagingError::RegionFull),
    {
        let n = buf.len();
        if n > self.capacity - self.data.len() {
            return Err(StagingError::RegionFull);
        }
        let mut i: usize = 0;
        while i < n
            invariant
                n == buf@.len(),
                0 <= i <= n,
                self.data@ == old(self).data@ + buf@.take(i as int),
                self.capacity == old(self).capacity,
                old(self).data@.len() + n <= self.capacity,
            decreases n - i,
        {
            self.data.push(buf[i]);
            proof {
                assert(self.data@ =~= old(self).data@ + buf@.take(i as int + 1));
            }
            i = i + 1;
        }
        proof {
            assert(buf@.take(n as int) =~= buf@);
        }
        Ok(n)
    }

    /// Writes land in the region at once; flushing changes nothing. Kept so
    /// the sink is driven like any buffered writer.
    pub fn flush(&mut self)
        ensures
            *final(self) == *old(self),
    {
    }

    /// How many bytes have been written: the valid range's `end`.
    pub fn bytes_written(&self) -> (r: usize)
        ensures
            r == self.written().len(),
    {
        self.data.len()
    }

    /// The region's fixed capacity in bytes.
    pub fn capacity_bytes(&self) -> (r: usize)
        ensures
            r == self.capacity(),
    {
        self.capacity
    }

    /// The written bytes, handed out for copying into the backing file.
    pub fn as_written(&self) -> (r: &Vec<u8>)
        ensures
            r@ == self.written(),
    {
        &self.data
    }
}

/// What a reader sees of the mapped file up to `end` is exactly the written
/// prefix: padding past `end` is invisible to a range-bounded reader.
pub proof fn lemma_mapped_view_prefix(w: &SizedWriterBuffer)
    requires
        w.wf(),
    ensures
        w.mapped_view().len() == w.capacity(),
        w.mapped_view().subrange(0, w.written().len() as int) == w.written(),
{
    assert(w.mapped_view().subrange(0, w.written().len() as int) =~= w.written());
}

} // verus!
