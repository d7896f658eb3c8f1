//! Byte-addressed storage backends and the errors disk images report.

use vstd::prelude::*;

verus! {

/// Errors reported by storage backends and disk images.
#[derive(Debug, Clone, Copy, PartialEq, Eq)]
pub enum DiskError {
    /// The image violates its format; the text names the violated rule.
    CorruptImage(&'static str),
    /// The image is well-formed but uses something this implementation refuses.
    Unsupported(&'static str),
    /// A transfer runs past the end of a disk or backend.
    OutOfBounds { offset: u64, len: usize, capacity: u64 },
    /// An offset computation does not fit in 64 bits.
    OffsetOverflow,
    /// Memory for an in-memory table could not be reserved.
    QuotaExceeded,
    /// The backend's own I/O failed.
    Io(&'static str),
}

/// The bytes of a backend after `bytes` were written at `offset`: the backend grows with zeros
/// up to the end of the write if needed.
pub open spec fn spec_write_bytes(data: Seq<u8>, offset: int, bytes: Seq<u8>) -> Seq<u8> {
    let end = offset + bytes.len();
    let new_len = if end > data.len() { end } else { data.len() as int };
    Seq::new(
        new_len as nat,
        |i: int|
            if offset <= i < end {
                bytes[i - offset]
            } else if i < data.len() {
                data[i]
            } else {
                0u8
            },
    )
}

/// The bytes of a backend resized to `len`: truncated, or extended with zeros.
pub open spec fn spec_resize(data: Seq<u8>, len: int) -> Seq<u8> {
    Seq::new(len as nat, |i: int| if i < data.len() { data[i] } else { 0u8 })
}

/// A growable byte store that disk images live in.
///
/// `contents` is the store's bytes. Every operation that returns `Ok` has the stated effect;
/// an operation that fails leaves nothing promised beyond what its `ensures` says.
pub trait StorageBackend {
    spec fn contents(&self) -> Seq<u8>;

    /// The errors this backend can report; every failed operation returns one of them.
    spec fn reports(e: DiskError) -> bool;

    /// Current length in bytes.
    fn len(&mut self) -> (r: Result<u64, DiskError>)
        ensures
            r matches Err(e) ==> Self::reports(e),
            final(self).contents() == old(self).contents(),
            r matches Ok(n) ==> n == old(self).contents().len(),
    ;

    /// Truncate or zero-extend the store to `len` bytes.
    fn set_len(&mut self, len: u64) -> (r: Result<(), DiskError>)
        ensures
            r matches Err(e) ==> Self::reports(e),
            r is Ok ==> final(self).contents() == spec_resize(old(self).contents(), len as int),
    ;

    /// Fill `buf` from the bytes at `offset`. A range that runs past the end fails with
    /// `OutOfBounds`, and only such a range does.
    fn read_at(&mut self, offset: u64, buf: &mut [u8]) -> (r: Result<(), DiskError>)
        ensures
            r matches Err(e) ==> Self::reports(e),
            final(self).contents() == old(self).contents(),
            final(buf)@.len() == old(buf)@.len(),
            offset + old(buf)@.len() > old(self).contents().len() ==> r is Err,
            r matches Err(DiskError::OutOfBounds { .. }) <==> offset + old(buf)@.len()
                > old(self).contents().len(),
            r is Ok ==> offset + old(buf)@.len() <= old(self).contents().len()
                && final(buf)@ == old(self).contents().subrange(
                offset as int,
                offset + old(buf)@.len(),
            ),
    ;

    /// Write `buf` at `offset`, growing the store if the write ends past it.
    fn write_at(&mut self, offset: u64, buf: &[u8]) -> (r: Result<(), DiskError>)
        ensures
            r matches Err(e) ==> Self::reports(e),
            r is Ok ==> final(self).contents() == spec_write_bytes(
                old(self).contents(),
                offset as int,
                buf@,
            ),
    ;

    /// Make earlier writes durable.
    fn flush(&mut self) -> (r: Result<(), DiskError>)
        ensures
            r matches Err(e) ==> Self::reports(e),
            final(self).contents() == old(self).contents(),
    ;
}


/// A backend held in memory.
#[derive(Debug, Clone, Default)]
pub struct MemStorage {
    pub data: Vec<u8>,
}

impl MemStorage {
    pub fn new() -> (s: Self)
        ensures
            s.data@ == Seq::<u8>::empty(),
    {
        MemStorage { data: Vec::new() }
    }
}

impl StorageBackend for MemStorage {
    open spec fn contents(&self) -> Seq<u8> {
        self.data@
    }

    /// An address that does not fit in memory, or a read past the end.
    open spec fn reports(e: DiskError) -> bool {
        e is OffsetOverflow || e is OutOfBounds
    }

    fn len(&mut self) -> (r: Result<u64, DiskError>)
        ensures
            r == Ok::<u64, DiskError>(old(self).data@.len() as u64),
    {
        Ok(self.data.len() as u64)
    }

    /// Fails only for a length that does not fit in memory's address width.
    fn set_len(&mut self, len: u64) -> (r: Result<(), DiskError>)
        ensures
            r is Ok <==> len <= usize::MAX,
            r is Err ==> r == Err::<(), DiskError>(DiskError::OffsetOverflow) && final(self).data@
                == old(self).data@,
    {
        if len > usize::MAX as u64 {
            return Err(DiskError::OffsetOverflow);
        }
        let n = len as usize;
        let old_len = self.data.len();
        if n <= old_len {
            self.data.truncate(n);
        } else {
            let mut i = old_len;
            while i < n
                invariant
                    old_len <= i <= n,
                    self.data@.len() == i,
                    forall|j: int| 0 <= j < old_len ==> self.data@[j] == old(self).data@[j],
                    forall|j: int| old_len <= j < i ==> self.data@[j] == 0u8,
                    old_len == old(self).data@.len(),
                decreases n - i,
            {
                self.data.push(0u8);
                i += 1;
            }
        }
        assert(self.data@ =~= spec_resize(old(self).data@, len as int));
        Ok(())
    }

    fn read_at(&mut self, offset: u64, buf: &mut [u8]) -> (r: Result<(), DiskError>) {
        let len = self.data.len();
        if offset > len as u64 || buf.len() as u64 > len as u64 - offset {
            return Err(
                DiskError::OutOfBounds { offset, len: buf.len(), capacity: self.data.len() as u64 },
            );
        }
        let start = offset as usize;
        let n = buf.len();
        let mut i: usize = 0;
        while i < n
            invariant
                n == buf@.len(),
                start + n <= self.data@.len(),
                self.data@.len() == len,
                i <= n,
                forall|j: int| 0 <= j < i ==> buf@[j] == self.data@[start + j],
            decreases n - i,
        {
            buf[i] = self.data[start + i];
            i += 1;
        }
        assert(buf@ =~= self.data@.subrange(offset as int, offset + n));
        Ok(())
    }

    /// Fails only for a write whose end does not fit in memory's address width.
    fn write_at(&mut self, offset: u64, buf: &[u8]) -> (r: Result<(), DiskError>)
        ensures
            r is Ok <==> offset + buf@.len() <= usize::MAX,
            r is Err ==> r == Err::<(), DiskError>(DiskError::OffsetOverflow) && final(self).data@
                == old(self).data@,
    {
        if offset > usize::MAX as u64 || buf.len() > usize::MAX - offset as usize {
            return Err(DiskError::OffsetOverflow);
        }
        let start = offset as usize;
        let end = start + buf.len();
        let old_len = self.data.len();
        if end > old_len {
            let mut k = old_len;
            while k < end
                invariant
                    old_len <= k <= end,
                    self.data@.len() == k,
                    forall|j: int| 0 <= j < old_len ==> self.data@[j] == old(self).data@[j],
                    forall|j: int| old_len <= j < k ==> self.data@[j] == 0u8,
                    old_len == old(self).data@.len(),
                decreases end - k,
            {
                self.data.push(0u8);
                k += 1;
            }
        }
        assert(self.data@.len() == if end > old_len { end as int } else { old_len as int });
        assert(forall|j: int| 0 <= j < old_len ==> self.data@[j] == old(self).data@[j]);
        assert(forall|j: int| old_len <= j < self.data@.len() ==> self.data@[j] == 0u8);
        let ghost grown = self.data@;
        let mut i: usize = 0;
        while i < buf.len()
            invariant
                end == start + buf@.len(),
                self.data@.len() == grown.len(),
                end <= grown.len(),
                i <= buf@.len(),
                forall|j: int| 0 <= j < start ==> self.data@[j] == grown[j],
                forall|j: int| end <= j < grown.len() ==> self.data@[j] == grown[j],
                forall|j: int| start <= j < start + i ==> self.data@[j] == buf@[j - start],
                grown.len() == if end > old_len { end as int } else { old_len as int },
                forall|j: int| 0 <= j < old_len ==> grown[j] == old(self).data@[j],
                forall|j: int| old_len <= j < grown.len() ==> grown[j] == 0u8,
                old_len == old(self).data@.len(),
                start == offset,
            decreases buf@.len() - i,
        {
            self.data.set(start + i, buf[i]);
            i += 1;
        }
        assert(i == buf@.len());
        let ghost expected = spec_write_bytes(old(self).data@, offset as int, buf@);
        assert(self.data@.len() == expected.len());
        assert forall|j: int| 0 <= j < self.data@.len() implies #[trigger] self.data@[j] == expected[j] by {
            if start <= j < end {
                assert(self.data@[j] == buf@[j - start]);
                assert(expected[j] == buf@[j - offset]);
            } else if j < old_len {
                assert(self.data@[j] == grown[j]);
            } else {
                assert(self.data@[j] == grown[j]);
            }
        }
        assert(self.data@ =~= expected);
        Ok(())
    }

    fn flush(&mut self) -> (r: Result<(), DiskError>)
        ensures
            r is Ok,
    {
        Ok(())
    }
}

} // verus!
