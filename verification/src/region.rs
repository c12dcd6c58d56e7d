use crate::error::SegmentError;
use vstd::prelude::*;
use vstd::slice::*;

verus! {

/// The bytes of one segment as they lie in its mapped view: a byte region
/// that is read and written by range and becomes longer only through
/// `grow_by`, up to a limit it was given.
pub struct MappedRegion {
    bytes: Vec<u8>,
    limit: usize,
}

/// `count` zero bytes: what a region holds where it has grown and nothing
/// was written yet.
pub open spec fn zeros(count: nat) -> Seq<u8> {
    Seq::new(count, |i: int| 0u8)
}

/// `bytes` with `patch` laid over it from `offset` on.
pub open spec fn overlay(bytes: Seq<u8>, offset: int, patch: Seq<u8>) -> Seq<u8>
    recommends
        0 <= offset,
        offset + patch.len() <= bytes.len(),
{
    bytes.subrange(0, offset) + patch + bytes.subrange(offset + patch.len(), bytes.len() as int)
}

impl View for MappedRegion {
    type V = Seq<u8>;

    closed spec fn view(&self) -> Seq<u8> {
        self.bytes@
    }
}

impl MappedRegion {
    /// The greatest length the region may grow to.
    pub closed spec fn spec_limit(&self) -> usize {
        self.limit
    }

    /// An empty region that may grow to `limit` bytes.
    pub fn new(limit: usize) -> (region: Self)
        ensures
            region@ == Seq::<u8>::empty(),
            region.spec_limit() == limit,
    {
        Self { bytes: Vec::new(), limit }
    }

    /// A region that holds `bytes` and may grow to `limit` bytes. Where
    /// `bytes` is longer than `limit` already, it can be read and written
    /// but not grown.
    pub fn from_bytes(bytes: Vec<u8>, limit: usize) -> (region: Self)
        ensures
            region@ == bytes@,
            region.spec_limit() == limit,
    {
        Self { bytes, limit }
    }

    /// The greatest length the region may grow to.
    pub fn limit(&self) -> (limit: usize)
        ensures
            limit == self.spec_limit(),
    {
        self.limit
    }

    /// The current length in bytes.
    pub fn len(&self) -> (len: u64)
        ensures
            len == self@.len(),
    {
        self.bytes.len() as u64
    }

    /// All bytes of the region.
    pub fn as_bytes(&self) -> (bytes: &[u8])
        ensures
            bytes@ == self@,
    {
        self.bytes.as_slice()
    }

    /// The bytes in `[start, end)`. A range that ends past the region, or
    /// before it begins, is out of bounds.
    pub fn read(&self, start: u64, end: u64) -> (r: Result<&[u8], SegmentError>)
        ensures
            match r {
                Ok(bytes) => start <= end <= self@.len() && bytes@ == self@.subrange(
                    start as int,
                    end as int,
                ),
                Err(e) => e == SegmentError::OutOfBounds && (end > self@.len() || start > end),
            },
    {
        let len: usize = self.bytes.len();
        if end > len as u64 || start > end {
            return Err(SegmentError::OutOfBounds);
        }
        Ok(slice_subrange(self.bytes.as_slice(), start as usize, end as usize))
    }

    /// Copies `bytes` into the region from `offset` on. The range has to
    /// lie within the current length: writing never makes the region
    /// longer.
    pub fn write(&mut self, offset: u64, bytes: &[u8]) -> (r: Result<(), SegmentError>)
        ensures
            final(self).spec_limit() == old(self).spec_limit(),
            match r {
                Ok(()) => offset + bytes@.len() <= old(self)@.len() && final(self)@ == overlay(
                    old(self)@,
                    offset as int,
                    bytes@,
                ),
                Err(e) => e == SegmentError::OutOfBounds && offset + bytes@.len() > old(self)@.len()
                    && final(self)@ == old(self)@,
            },
    {
        let len: usize = self.bytes.len();
        let count: usize = bytes.len();
        if offset > len as u64 || count > len - offset as usize {
            return Err(SegmentError::OutOfBounds);
        }
        let start: usize = offset as usize;
        let mut i: usize = 0;
        while i < count
            invariant
                i <= count,
                count == bytes@.len(),
                start + count <= len,
                self.bytes@.len() == len,
                self.limit == old(self).limit,
                forall|j: int| 0 <= j < len && !(start <= j < start + i) ==> self.bytes@[j] == old(self).bytes@[j],
                forall|j: int| 0 <= j < i ==> self.bytes@[start + j] == bytes@[j],
            decreases count - i,
        {
            self.bytes[start + i] = bytes[i];
            i += 1;
        }
        assert(self.bytes@ =~= overlay(old(self).bytes@, offset as int, bytes@));
        Ok(())
    }

    /// Makes the region `additional` bytes longer. The bytes it had stay;
    /// the new ones are zero. Growth past the limit is refused and leaves
    /// the region as it was.
    pub fn grow_by(&mut self, additional: u64) -> (r: Result<(), SegmentError>)
        ensures
            final(self).spec_limit() == old(self).spec_limit(),
            match r {
                Ok(()) => old(self)@.len() + additional <= old(self).spec_limit() && final(self)@
                    == old(self)@ + zeros(additional as nat),
                Err(e) => e == SegmentError::GrowFailed && old(self)@.len() + additional > old(self).spec_limit() && final(self)@ == old(self)@,
            },
    {
        let len: usize = self.bytes.len();
        if len > self.limit || additional > (self.limit - len) as u64 {
            return Err(SegmentError::GrowFailed);
        }
        self.bytes.resize(len + additional as usize, 0u8);
        assert(self.bytes@ =~= old(self).bytes@ + zeros(additional as nat));
        Ok(())
    }
}

} // verus!
