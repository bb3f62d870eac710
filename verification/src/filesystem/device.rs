//! The seekable byte store that a filesystem is kept on.

use vstd::prelude::*;
use vstd::slice::{slice_subrange, slice_to_vec};

verus! {

/// `before` with `data` copied over the bytes from `position` on.
pub open spec fn overwritten(before: Seq<u8>, position: int, data: Seq<u8>) -> Seq<u8> {
    Seq::new(
        before.len(),
        |at: int|
            if position <= at < position + data.len() {
                data[at - position]
            } else {
                before[at]
            },
    )
}

/// The bytes of a device, as contracts speak of them.
pub type Stored = Seq<u8>;

/// A store of a fixed number of bytes, read and written at absolute offsets.
///
/// Whether a transfer succeeds is up to the device. A successful read
/// returns the stored bytes; a successful write stores exactly the given
/// bytes; a failed write leaves every byte outside the written range as it was.
pub trait BlockDevice {
    /// The bytes that the device holds. A device that is implemented
    /// outside verified code is trusted to behave as the two methods promise
    /// of these bytes.
    spec fn contents(&self) -> Stored;

    /// Reads `length` bytes starting at `position`.
    fn read_exact_at(&mut self, position: u64, length: usize) -> (result: Result<
        Vec<u8>,
        std::io::Error,
    >)
        ensures
            final(self).contents() == old(self).contents(),
            result matches Ok(bytes) ==> position + length <= old(self).contents().len() && bytes@
                == old(self).contents().subrange(position as int, position + length),
    ;

    /// Writes all of `data` starting at `position`.
    fn write_all_at(&mut self, position: u64, data: &[u8]) -> (result: Result<(), std::io::Error>)
        ensures
            final(self).contents().len() == old(self).contents().len(),
            result is Ok ==> position + data@.len() <= old(self).contents().len()
                && final(self).contents() == overwritten(
                old(self).contents(),
                position as int,
                data@,
            ),
            forall|at: int|
                0 <= at < old(self).contents().len() && !(position <= at < position + data@.len())
                    ==> final(self).contents()[at] == old(self).contents()[at],
    ;
}

/// Makes the error that a transfer outside the device reports.
///
/// Calls `std::io::Error::from` with `ErrorKind::UnexpectedEof`; nothing is
/// claimed of the value.
#[verifier::external_body]
fn out_of_range_error() -> std::io::Error {
    std::io::Error::from(std::io::ErrorKind::UnexpectedEof)
}

/// A device kept in memory.
#[derive(Debug)]
pub struct MemoryDevice {
    pub data: Vec<u8>,
}

impl MemoryDevice {
    /// Wraps `data` as a device of `data.len()` bytes.
    pub fn new(data: Vec<u8>) -> (device: Self)
        ensures
            device.contents() == data@,
    {
        Self { data }
    }

    /// Gives back the bytes of the device.
    pub fn into_inner(self) -> (data: Vec<u8>)
        ensures
            data@ == self.contents(),
    {
        self.data
    }
}

impl BlockDevice for MemoryDevice {
    open spec fn contents(&self) -> Seq<u8> {
        self.data@
    }

    /// Succeeds exactly when the range lies within the device.
    fn read_exact_at(&mut self, position: u64, length: usize) -> (result: Result<
        Vec<u8>,
        std::io::Error,
    >)
        ensures
            result is Ok <==> position + length <= old(self).contents().len(),
    {
        let size = self.data.len();
        if position > size as u64 || length > size - position as usize {
            return Err(out_of_range_error());
        }
        let start = position as usize;
        Ok(slice_to_vec(slice_subrange(self.data.as_slice(), start, start + length)))
    }

    /// Succeeds exactly when the range lies within the device; a write that
    /// fails changes nothing.
    fn write_all_at(&mut self, position: u64, data: &[u8]) -> (result: Result<(), std::io::Error>)
        ensures
            result is Ok <==> position + data@.len() <= old(self).contents().len(),
            result is Err ==> final(self).contents() == old(self).contents(),
    {
        let size = self.data.len();
        if position > size as u64 || data.len() > size - position as usize {
            return Err(out_of_range_error());
        }
        let start = position as usize;
        let mut copied: usize = 0;
        while copied < data.len()
            invariant
                copied <= data@.len(),
                size == self.data@.len(),
                start + data@.len() <= self.data@.len(),
                self.data@.len() == old(self).data@.len(),
                forall|at: int|
                    0 <= at < self.data@.len() ==> self.data@[at] == (if start <= at < start
                        + copied {
                        data@[at - start]
                    } else {
                        old(self).data@[at]
                    }),
            decreases data@.len() - copied,
        {
            self.data[start + copied] = data[copied];
            copied += 1;
        }
        assert(self.data@ =~= overwritten(old(self).data@, position as int, data@));
        Ok(())
    }
}

} // verus!
