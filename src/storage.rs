//! Aligned block access to a storage device, and a device held in memory.
use vstd::prelude::*;

verus! {

/// Why an operation of a wipe failed.
#[derive(Debug, Clone, Copy, PartialEq, Eq, Structural)]
pub enum WipeError {
    /// The operator refused to go on.
    UserDeclined,
    /// A size, scheme, device or offset that cannot be used.
    InvalidArgument,
    /// The system refused exclusive access.
    AccessDenied,
    /// The device is gone.
    NotFound,
    /// Another process holds the device.
    Busy,
    /// A read or a write failed; worth another try.
    Io,
    /// Bytes read back differ from the bytes written.
    VerificationMismatch,
    /// The run was cancelled.
    Cancelled,
}

/// Why the device refused an operation.
#[derive(Debug, Clone, Copy, PartialEq, Eq, Structural)]
pub enum StorageError {
    AccessDenied,
    NotFound,
    Busy,
    Io,
}

/// The wipe error that a storage error stands for.
pub open spec fn spec_cause(e: StorageError) -> WipeError {
    match e {
        StorageError::AccessDenied => WipeError::AccessDenied,
        StorageError::NotFound => WipeError::NotFound,
        StorageError::Busy => WipeError::Busy,
        StorageError::Io => WipeError::Io,
    }
}

pub fn cause(e: StorageError) -> (r: WipeError)
    ensures
        r == spec_cause(e),
{
    match e {
        StorageError::AccessDenied => WipeError::AccessDenied,
        StorageError::NotFound => WipeError::NotFound,
        StorageError::Busy => WipeError::Busy,
        StorageError::Io => WipeError::Io,
    }
}

/// `s` with `data` written over it from index `at` on.
pub open spec fn splice(s: Seq<u8>, at: int, data: Seq<u8>) -> Seq<u8> {
    s.subrange(0, at) + data + s.subrange(at + data.len(), s.len() as int)
}

/// Exclusive, aligned, positioned access to one device.
///
/// `contents` is what the device holds, `cursor` the byte offset that the
/// next read or write starts at, and `granularity` the device's block size:
/// every position and every buffer length is a multiple of it.
pub trait StorageAccess {
    spec fn contents(&self) -> Seq<u8>;

    spec fn cursor(&self) -> int;

    spec fn granularity(&self) -> nat;

    /// `Some(n)`: at most `n` further operations fail, each with `Io` and
    /// each using up one; `None`: nothing is known of future failures.
    spec fn faults_left(&self) -> Option<nat>;

    fn block_size(&self) -> (r: usize)
        ensures
            r == self.granularity(),
    ;

    fn size(&self) -> (r: u64)
        ensures
            r == self.contents().len(),
    ;

    fn position(&mut self, offset: u64) -> (r: Result<(), StorageError>)
        requires
            old(self).granularity() > 0,
            offset as int % old(self).granularity() as int == 0,
            offset <= old(self).contents().len(),
        ensures
            final(self).contents() == old(self).contents(),
            final(self).granularity() == old(self).granularity(),
            r is Ok ==> final(self).cursor() == offset,
            old(self).faults_left() matches Some(n) ==> final(self).faults_left() matches Some(m)
                && (r is Ok ==> m == n) && (r matches Err(e) ==> e == StorageError::Io && m + 1
                == n),
    ;

    fn write(&mut self, buf: &Vec<u8>) -> (r: Result<(), StorageError>)
        requires
            old(self).granularity() > 0,
            0 <= old(self).cursor(),
            old(self).cursor() % old(self).granularity() as int == 0,
            buf@.len() as int % old(self).granularity() as int == 0,
            old(self).cursor() + buf@.len() <= old(self).contents().len(),
        ensures
            final(self).granularity() == old(self).granularity(),
            final(self).contents().len() == old(self).contents().len(),
            r is Ok ==> final(self).contents() == splice(
                old(self).contents(),
                old(self).cursor(),
                buf@,
            ),
            r is Ok ==> final(self).cursor() == old(self).cursor() + buf@.len(),
            forall|k: int|
                0 <= k < old(self).contents().len() && !(old(self).cursor() <= k
                    < old(self).cursor() + buf@.len()) ==> #[trigger] final(self).contents()[k]
                    == old(self).contents()[k],
            old(self).faults_left() matches Some(n) ==> final(self).faults_left() matches Some(m)
                && (r is Ok ==> m == n) && (r matches Err(e) ==> e == StorageError::Io && m + 1
                == n),
    ;

    fn read(&mut self, buf: &mut Vec<u8>) -> (r: Result<(), StorageError>)
        requires
            old(self).granularity() > 0,
            0 <= old(self).cursor(),
            old(self).cursor() % old(self).granularity() as int == 0,
            old(buf)@.len() as int % old(self).granularity() as int == 0,
            old(self).cursor() + old(buf)@.len() <= old(self).contents().len(),
        ensures
            final(self).granularity() == old(self).granularity(),
            final(self).contents() == old(self).contents(),
            final(buf)@.len() == old(buf)@.len(),
            r is Ok ==> final(buf)@ == old(self).contents().subrange(
                old(self).cursor(),
                old(self).cursor() + old(buf)@.len(),
            ),
            r is Ok ==> final(self).cursor() == old(self).cursor() + old(buf)@.len(),
            old(self).faults_left() matches Some(n) ==> final(self).faults_left() matches Some(m)
                && (r is Ok ==> m == n) && (r matches Err(e) ==> e == StorageError::Io && m + 1
                == n),
    ;

    fn flush(&mut self) -> (r: Result<(), StorageError>)
        ensures
            final(self).granularity() == old(self).granularity(),
            final(self).contents() == old(self).contents(),
            old(self).faults_left() matches Some(n) ==> final(self).faults_left() matches Some(m)
                && (r is Ok ==> m == n) && (r matches Err(e) ==> e == StorageError::Io && m + 1
                == n),
    ;
}

/// A device held in memory, which can be told to fail writes at one offset.
pub struct MemoryStorage {
    data: Vec<u8>,
    cursor: u64,
    block_size: usize,
    failing_offset: u64,
    failures_left: u64,
    writes: u64,
    reads: u64,
}

impl MemoryStorage {
    /// A zeroed device of `size` bytes with blocks of `block_size` bytes.
    pub fn new(size: usize, block_size: usize) -> (r: MemoryStorage)
        requires
            block_size > 0,
        ensures
            r.contents() == Seq::new(size as nat, |_i: int| 0u8),
            r.granularity() == block_size,
            r.cursor() == 0,
            r.injected_failures() == 0,
            r.faults_left() == Some(0nat),
            r.writes_done() == 0,
            r.reads_done() == 0,
    {
        let mut data: Vec<u8> = Vec::new();
        let mut i: usize = 0;
        while i < size
            invariant
                i <= size,
                data@ == Seq::new(i as nat, |_i: int| 0u8),
            decreases size - i,
        {
            data.push(0);
            i = i + 1;
            assert(data@ =~= Seq::new(i as nat, |_i: int| 0u8));
        }
        MemoryStorage {
            data,
            cursor: 0,
            block_size,
            failing_offset: 0,
            failures_left: 0,
            writes: 0,
            reads: 0,
        }
    }

    pub closed spec fn injected_failures(&self) -> nat {
        self.failures_left as nat
    }

    pub closed spec fn writes_done(&self) -> nat {
        self.writes as nat
    }

    pub closed spec fn reads_done(&self) -> nat {
        self.reads as nat
    }

    /// Makes the next `times` writes that start at `offset` fail with `Io`.
    pub fn fail_writes_at(&mut self, offset: u64, times: u64)
        ensures
            final(self).contents() == old(self).contents(),
            final(self).granularity() == old(self).granularity(),
            final(self).cursor() == old(self).cursor(),
            final(self).injected_failures() == times,
            final(self).faults_left() == Some(times as nat),
    {
        self.failing_offset = offset;
        self.failures_left = times;
    }

    /// Flips every bit of the byte at `offset`, as a fault of the medium would.
    pub fn corrupt(&mut self, offset: usize)
        requires
            offset < old(self).contents().len(),
        ensures
            final(self).contents() == old(self).contents().update(
                offset as int,
                !old(self).contents()[offset as int],
            ),
            final(self).granularity() == old(self).granularity(),
            final(self).cursor() == old(self).cursor(),
            final(self).faults_left() == old(self).faults_left(),
    {
        let b = self.data[offset];
        self.data.set(offset, !b);
    }

    /// What the device holds.
    pub fn data(&self) -> (r: &Vec<u8>)
        ensures
            r@ == self.contents(),
    {
        &self.data
    }

    /// How many writes succeeded, counted modulo 2^64.
    pub fn write_count(&self) -> (r: u64)
        ensures
            r == self.writes_done(),
    {
        self.writes
    }

    /// How many reads succeeded, counted modulo 2^64.
    pub fn read_count(&self) -> (r: u64)
        ensures
            r == self.reads_done(),
    {
        self.reads
    }
}

impl StorageAccess for MemoryStorage {
    closed spec fn contents(&self) -> Seq<u8> {
        self.data@
    }

    closed spec fn cursor(&self) -> int {
        self.cursor as int
    }

    closed spec fn granularity(&self) -> nat {
        self.block_size as nat
    }

    closed spec fn faults_left(&self) -> Option<nat> {
        Some(self.failures_left as nat)
    }

    fn block_size(&self) -> (r: usize) {
        self.block_size
    }

    fn size(&self) -> (r: u64) {
        self.data.len() as u64
    }

    fn position(&mut self, offset: u64) -> (r: Result<(), StorageError>) {
        self.cursor = offset;
        Ok(())
    }

    fn write(&mut self, buf: &Vec<u8>) -> (r: Result<(), StorageError>) {
        if self.failures_left > 0 && self.cursor == self.failing_offset {
            self.failures_left = self.failures_left - 1;
            return Err(StorageError::Io);
        }
        let _n = self.data.len();
        let start = self.cursor as usize;
        let ghost before = self.data@;
        let mut i: usize = 0;
        while i < buf.len()
            invariant
                0 <= i <= buf@.len(),
                start + buf@.len() <= before.len() <= usize::MAX,
                start == self.cursor,
                self.block_size == old(self).block_size,
                self.cursor == old(self).cursor,
                self.failures_left == old(self).failures_left,
                self.data@.len() == before.len(),
                forall|k: int| 0 <= k < start ==> self.data@[k] == before[k],
                forall|k: int| start + buf@.len() <= k < before.len() ==> self.data@[k] == before[k],
                forall|k: int| 0 <= k < i ==> self.data@[start + k] == buf@[k],
                forall|k: int| start + i <= k < before.len() ==> self.data@[k] == before[k],
            decreases buf@.len() - i,
        {
            self.data.set(start + i, buf[i]);
            i = i + 1;
        }
        assert(self.data@ =~= splice(before, start as int, buf@));
        self.cursor = self.cursor + buf.len() as u64;
        self.writes = self.writes.wrapping_add(1);
        Ok(())
    }

    fn read(&mut self, buf: &mut Vec<u8>) -> (r: Result<(), StorageError>) {
        let _n = self.data.len();
        let start = self.cursor as usize;
        let mut i: usize = 0;
        while i < buf.len()
            invariant
                0 <= i <= buf@.len(),
                buf@.len() == old(buf)@.len(),
                start + buf@.len() <= self.data@.len() <= usize::MAX,
                start == self.cursor,
                self.data@ == old(self).data@,
                forall|k: int| 0 <= k < i ==> buf@[k] == self.data@[start + k],
            decreases buf@.len() - i,
        {
            buf.set(i, self.data[start + i]);
            i = i + 1;
        }
        assert(buf@ =~= self.data@.subrange(start as int, start + buf@.len()));
        self.cursor = self.cursor + buf.len() as u64;
        self.reads = self.reads.wrapping_add(1);
        Ok(())
    }

    fn flush(&mut self) -> (r: Result<(), StorageError>) {
        Ok(())
    }
}

} // verus!
