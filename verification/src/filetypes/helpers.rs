//! Block-level helpers: next-pointers, empty blocks and payload transfer.

use vstd::prelude::*;
use vstd::bytes::{spec_u64_from_le_bytes, spec_u64_to_le_bytes, u64_from_le_bytes, u64_to_le_bytes,
    lemma_auto_spec_u64_to_from_le_bytes};
use crate::bytes::{spec_u16_from_le_bytes, u16_from_le_bytes};
use vstd::slice::slice_subrange;
use vstd::utf8::{decode_utf8, valid_utf8};
use crate::bytes::{spec_u16_from_be_bytes, spec_u64_from_be_bytes, u16_from_be_bytes,
    u64_from_be_bytes, zeros};
use crate::error::Error;
use crate::filesystem::Filesystem;
use crate::filesystem::device::{BlockDevice, overwritten};
use crate::filetypes::RawByteFile;
use crate::filetypes::directory_child::string_from_utf8;
use crate::structs::{Block, NULL_BLOCK};

verus! {

/// Width of the next-pointer at the start of every block.
pub const BYTES_IN_U64: usize = 8;

/// Width of a name length in a directory entry.
pub const BYTES_IN_U16: usize = 2;

/// The next-pointer that a block's bytes hold.
pub open spec fn spec_next_block(data: Seq<u8>) -> u64 {
    spec_u64_from_le_bytes(data.subrange(0, 8))
}

/// A block's bytes after the next-pointer.
pub open spec fn spec_payload(data: Seq<u8>) -> Seq<u8> {
    data.subrange(8, data.len() as int)
}

/// A block's bytes with the next-pointer replaced.
pub open spec fn spec_with_next(data: Seq<u8>, next: u64) -> Seq<u8> {
    spec_u64_to_le_bytes(next) + spec_payload(data)
}

/// A block of `size` bytes with no successor and a zeroed payload.
pub open spec fn spec_empty_block(size: nat) -> Seq<u8> {
    spec_u64_to_le_bytes(NULL_BLOCK) + zeros((size - 8) as nat)
}

/// Replacing the next-pointer keeps the length and the payload, and the new
/// pointer is read back.
pub proof fn lemma_with_next(data: Seq<u8>, next: u64)
    requires
        data.len() >= 8,
    ensures
        spec_with_next(data, next).len() == data.len(),
        spec_next_block(spec_with_next(data, next)) == next,
        spec_payload(spec_with_next(data, next)) == spec_payload(data),
        spec_with_next(data, spec_next_block(data)) == data,
{
    lemma_auto_spec_u64_to_from_le_bytes();
    let replaced = spec_with_next(data, next);
    assert(replaced.subrange(0, 8) =~= spec_u64_to_le_bytes(next));
    assert(spec_payload(replaced) =~= spec_payload(data));
    assert(data.subrange(0, 8).len() == 8);
    assert(spec_with_next(data, spec_next_block(data)) =~= data);
}

/// An empty block has its size, no successor and a zeroed payload.
pub proof fn lemma_empty_block(size: nat)
    requires
        size >= 8,
    ensures
        spec_empty_block(size).len() == size,
        spec_next_block(spec_empty_block(size)) == NULL_BLOCK,
        spec_payload(spec_empty_block(size)) == zeros((size - 8) as nat),
{
    lemma_auto_spec_u64_to_from_le_bytes();
    let empty = spec_empty_block(size);
    assert(empty.subrange(0, 8) =~= spec_u64_to_le_bytes(NULL_BLOCK));
    assert(spec_payload(empty) =~= zeros((size - 8) as nat));
}

/// Decodes eight little-endian bytes.
pub fn u64_from_bytes(bytes: &[u8]) -> (value: u64)
    requires
        bytes@.len() == 8,
    ensures
        value == spec_u64_from_le_bytes(bytes@),
{
    u64_from_le_bytes(bytes)
}

/// Decodes two little-endian bytes.
pub fn u16_from_bytes(bytes: &[u8]) -> (value: u16)
    requires
        bytes@.len() == 2,
    ensures
        value == spec_u16_from_le_bytes(bytes@),
{
    u16_from_le_bytes(bytes)
}

/// Makes the bytes of an empty block.
pub fn empty_block(size: u32) -> (data: Vec<u8>)
    requires
        size >= 8,
    ensures
        data@ == spec_empty_block(size as nat),
        data@.len() == size,
{
    let mut data = u64_to_le_bytes(NULL_BLOCK);
    let mut length: usize = 8;
    while length < size as usize
        invariant
            8 <= length <= size,
            data@.len() == length,
            data@ == spec_u64_to_le_bytes(NULL_BLOCK) + zeros((length - 8) as nat),
        decreases size - length,
    {
        data.push(0);
        length += 1;
        assert(data@ =~= spec_u64_to_le_bytes(NULL_BLOCK) + zeros((length - 8) as nat));
    }
    data
}

/// Overwrites the block from `start_offset` on with the bytes of an empty
/// block, and returns how many bytes that were.
pub fn empty_block_data(block: &mut Block, start_offset: usize) -> (cleared: usize)
    requires
        8 <= old(block).data@.len() <= u32::MAX,
        start_offset <= old(block).data@.len(),
    ensures
        final(block).index == old(block).index,
        cleared == old(block).data@.len() - start_offset,
        final(block).data@ == old(block).data@.subrange(0, start_offset as int) + spec_empty_block(
            old(block).data@.len(),
        ).subrange(start_offset as int, old(block).data@.len() as int),
{
    let size = block.data.len();
    let empty = empty_block(size as u32);
    let mut at: usize = start_offset;
    while at < size
        invariant
            start_offset <= at <= size,
            size == block.data@.len(),
            size == old(block).data@.len(),
            empty@ == spec_empty_block(size as nat),
            empty@.len() == size,
            block.index == old(block).index,
            forall|before: int|
                0 <= before < size ==> block.data@[before] == (if start_offset <= before < at {
                    empty@[before]
                } else {
                    old(block).data@[before]
                }),
        decreases size - at,
    {
        block.data[at] = empty[at];
        at += 1;
    }
    assert(block.data@ =~= old(block).data@.subrange(0, start_offset as int) + empty@.subrange(
        start_offset as int,
        size as int,
    ));
    size - start_offset
}

/// Payload bytes in a block of `size` bytes.
pub fn bytes_per_block(size: u32) -> (payload: u64)
    requires
        size >= 8,
    ensures
        payload == size - 8,
{
    size as u64 - BYTES_IN_U64 as u64
}

/// Stores `next` as the block's next-pointer.
pub fn set_next_block(block: &mut Block, next: u64)
    requires
        old(block).data@.len() >= 8,
    ensures
        final(block).index == old(block).index,
        final(block).data@ == spec_with_next(old(block).data@, next),
        final(block).data@.len() == old(block).data@.len(),
        spec_next_block(final(block).data@) == next,
        spec_payload(final(block).data@) == spec_payload(old(block).data@),
{
    let bytes = u64_to_le_bytes(next);
    let mut at: usize = 0;
    while at < 8
        invariant
            at <= 8,
            bytes@ == spec_u64_to_le_bytes(next),
            bytes@.len() == 8,
            block.index == old(block).index,
            block.data@.len() == old(block).data@.len(),
            block.data@.len() >= 8,
            forall|before: int|
                0 <= before < block.data@.len() ==> block.data@[before] == (if before < at {
                    bytes@[before]
                } else {
                    old(block).data@[before]
                }),
        decreases 8 - at,
    {
        block.data[at] = bytes[at];
        at += 1;
    }
    proof {
        assert(block.data@ =~= spec_with_next(old(block).data@, next));
        lemma_with_next(old(block).data@, next);
    }
}

/// Reads the block's next-pointer.
pub fn get_next_block(block: &Block) -> (next: u64)
    requires
        block.data@.len() >= 8,
    ensures
        next == spec_next_block(block.data@),
{
    u64_from_bytes(slice_subrange(block.data.as_slice(), 0, BYTES_IN_U64))
}

/// Copies bytes from the block, starting at `start`, over `buffer` from
/// `filled` on: as many as the block still holds and the buffer still lacks.
/// Returns how many bytes were copied.
pub fn read_from_block(block: &Block, start: usize, buffer: &mut Vec<u8>, filled: usize) -> (read:
    usize)
    requires
        start <= block.data@.len(),
        filled <= old(buffer)@.len(),
    ensures
        read == vstd::math::min(
            block.data@.len() - start,
            old(buffer)@.len() - filled,
        ),
        final(buffer)@ == overwritten(
            old(buffer)@,
            filled as int,
            block.data@.subrange(start as int, start + read),
        ),
        final(buffer)@.len() == old(buffer)@.len(),
{
    let available = block.data.len() - start;
    let wanted = buffer.len() - filled;
    let count = if available <= wanted {
        available
    } else {
        wanted
    };
    let mut copied: usize = 0;
    while copied < count
        invariant
            copied <= count,
            start + count <= block.data@.len(),
            filled + count <= buffer@.len(),
            buffer@.len() == old(buffer)@.len(),
            buffer@.len() <= usize::MAX,
            block.data@.len() <= usize::MAX,
            forall|at: int|
                0 <= at < buffer@.len() ==> buffer@[at] == (if filled <= at < filled + copied {
                    block.data@[start + at - filled]
                } else {
                    old(buffer)@[at]
                }),
        decreases count - copied,
    {
        buffer[filled + copied] = block.data[start + copied];
        copied += 1;
    }
    assert(buffer@ =~= overwritten(
        old(buffer)@,
        filled as int,
        block.data@.subrange(start as int, start + count),
    ));
    count
}

/// Copies bytes of `buffer`, from `taken` on, into the block starting at
/// `start`: as many as the buffer still holds and the block has room for.
/// Returns how many bytes were copied.
pub fn write_to_block(block: &mut Block, start: usize, buffer: &[u8], taken: usize) -> (written:
    usize)
    requires
        start <= old(block).data@.len(),
        taken <= buffer@.len(),
    ensures
        final(block).index == old(block).index,
        written == vstd::math::min(
            old(block).data@.len() - start,
            buffer@.len() - taken,
        ),
        final(block).data@ == overwritten(
            old(block).data@,
            start as int,
            buffer@.subrange(taken as int, taken + written),
        ),
        final(block).data@.len() == old(block).data@.len(),
{
    let room = block.data.len() - start;
    let left = buffer.len() - taken;
    let count = if room <= left {
        room
    } else {
        left
    };
    let mut copied: usize = 0;
    while copied < count
        invariant
            copied <= count,
            start + count <= block.data@.len(),
            taken + count <= buffer@.len(),
            block.data@.len() == old(block).data@.len(),
            block.data@.len() <= usize::MAX,
            buffer@.len() <= usize::MAX,
            block.index == old(block).index,
            forall|at: int|
                0 <= at < block.data@.len() ==> block.data@[at] == (if start <= at < start + copied {
                    buffer@[taken + at - start]
                } else {
                    old(block).data@[at]
                }),
        decreases count - copied,
    {
        block.data[start + copied] = buffer[taken + copied];
        copied += 1;
    }
    assert(block.data@ =~= overwritten(
        old(block).data@,
        start as int,
        buffer@.subrange(taken as int, taken + count),
    ));
    count
}

/// Seconds since the Unix epoch, or zero when the clock reads earlier.
///
/// Calls `std::time::SystemTime::now` and `SystemTime::duration_since`;
/// nothing is claimed of the value.
#[verifier::external_body]
pub fn timestamp_now() -> u64 {
    std::time::SystemTime::now().duration_since(std::time::SystemTime::UNIX_EPOCH).map_or(
        0,
        |d| d.as_secs(),
    )
}

/// A buffer of `length` zero bytes.
pub fn zeroed(length: usize) -> (buffer: Vec<u8>)
    ensures
        buffer@ == zeros(length as nat),
{
    let buffer = vec![0u8; length];
    assert(buffer@ =~= zeros(length as nat));
    buffer
}

/// Whether reading `length` bytes from a file gave `bytes`: a consistent
/// file gives its next `length` bytes.
pub open spec fn spec_read<D: BlockDevice>(
    file: &RawByteFile,
    fs: &Filesystem<D>,
    length: int,
    bytes: Seq<u8>,
) -> bool {
    &&& bytes.len() == length
    &&& file.wf(fs) ==> bytes == file.contents(fs).subrange(
        file.cursor.offset(),
        file.cursor.offset() + length,
    )
}

/// Reads `length` bytes from the cursor of `file` on.
pub fn read_bytes<D: BlockDevice>(file: &mut RawByteFile, fs: &mut Filesystem<D>, length: usize)
    -> (result: Result<Vec<u8>, Error>)
    requires
        old(fs).wf(),
        old(file).sound(old(fs)),
    ensures
        final(fs).cached_from(old(fs)),
        final(fs).same_records(old(fs)),
        final(fs).keeps_cached(old(fs)),
        final(file).same_chain(old(file)),
        final(file).sound(final(fs)),
        result matches Err(e) ==> e.read_failure(),
        match result {
            Ok(bytes) => {
                &&& length <= old(file).size - old(file).cursor.offset()
                &&& final(file).cursor.offset() == old(file).cursor.offset() + length
                &&& spec_read(old(file), old(fs), length as int, bytes@)
                &&& old(file).wf(old(fs)) ==> final(file).wf(final(fs))
            },
            Err(e) => if length > old(file).size - old(file).cursor.offset() {
                e is OutOfBounds && final(file).cursor == old(file).cursor
            } else {
                old(file).wf(old(fs)) ==> e is Io && !old(file).cached(old(fs))
            },
        },
{
    let mut buffer = zeroed(length);
    match file.read(fs, &mut buffer) {
        Ok(_) => Ok(buffer),
        Err(e) => Err(e),
    }
}

/// Reads a big-endian 16-bit integer from the cursor of `file` on.
pub fn read_u16<D: BlockDevice>(file: &mut RawByteFile, fs: &mut Filesystem<D>) -> (result: Result<
    u16,
    Error,
>)
    requires
        old(fs).wf(),
        old(file).sound(old(fs)),
    ensures
        final(fs).cached_from(old(fs)),
        final(fs).same_records(old(fs)),
        final(fs).keeps_cached(old(fs)),
        final(file).same_chain(old(file)),
        final(file).sound(final(fs)),
        result matches Err(e) ==> e.read_failure(),
        match result {
            Ok(value) => {
                &&& final(file).cursor.offset() == old(file).cursor.offset() + 2
                &&& old(file).wf(old(fs)) ==> final(file).wf(final(fs)) && value
                    == spec_u16_from_be_bytes(
                    old(file).contents(old(fs)).subrange(
                        old(file).cursor.offset(),
                        old(file).cursor.offset() + 2,
                    ),
                )
            },
            Err(e) => if 2 > old(file).size - old(file).cursor.offset() {
                e is OutOfBounds && final(file).cursor == old(file).cursor
            } else {
                old(file).wf(old(fs)) ==> e is Io && !old(file).cached(old(fs))
            },
        },
{
    match read_bytes(file, fs, 2) {
        Ok(raw) => Ok(u16_from_be_bytes(raw.as_slice())),
        Err(e) => Err(e),
    }
}

/// Reads a big-endian 64-bit integer from the cursor of `file` on.
pub fn read_u64<D: BlockDevice>(file: &mut RawByteFile, fs: &mut Filesystem<D>) -> (result: Result<
    u64,
    Error,
>)
    requires
        old(fs).wf(),
        old(file).sound(old(fs)),
    ensures
        final(fs).cached_from(old(fs)),
        final(fs).same_records(old(fs)),
        final(fs).keeps_cached(old(fs)),
        final(file).same_chain(old(file)),
        final(file).sound(final(fs)),
        result matches Err(e) ==> e.read_failure(),
        match result {
            Ok(value) => {
                &&& final(file).cursor.offset() == old(file).cursor.offset() + 8
                &&& old(file).wf(old(fs)) ==> final(file).wf(final(fs)) && value
                    == spec_u64_from_be_bytes(
                    old(file).contents(old(fs)).subrange(
                        old(file).cursor.offset(),
                        old(file).cursor.offset() + 8,
                    ),
                )
            },
            Err(e) => if 8 > old(file).size - old(file).cursor.offset() {
                e is OutOfBounds && final(file).cursor == old(file).cursor
            } else {
                old(file).wf(old(fs)) ==> e is Io && !old(file).cached(old(fs))
            },
        },
{
    match read_bytes(file, fs, 8) {
        Ok(raw) => Ok(u64_from_be_bytes(raw.as_slice())),
        Err(e) => Err(e),
    }
}

/// Reads `length` bytes from the cursor of `file` on as UTF-8 text. `Utf8`
/// when the bytes are not valid UTF-8.
pub fn read_string<D: BlockDevice>(file: &mut RawByteFile, fs: &mut Filesystem<D>, length: usize)
    -> (result: Result<String, Error>)
    requires
        old(fs).wf(),
        old(file).sound(old(fs)),
    ensures
        final(fs).cached_from(old(fs)),
        final(fs).same_records(old(fs)),
        final(fs).keeps_cached(old(fs)),
        final(file).same_chain(old(file)),
        final(file).sound(final(fs)),
        result matches Err(e) ==> e.load_failure(),
        match result {
            Ok(text) => {
                &&& final(file).cursor.offset() == old(file).cursor.offset() + length
                &&& vstd::utf8::encode_utf8(text@).len() == length
                &&& old(file).wf(old(fs)) ==> final(file).wf(final(fs)) && valid_utf8(
                    old(file).contents(old(fs)).subrange(
                        old(file).cursor.offset(),
                        old(file).cursor.offset() + length,
                    ),
                ) && text@ == decode_utf8(
                    old(file).contents(old(fs)).subrange(
                        old(file).cursor.offset(),
                        old(file).cursor.offset() + length,
                    ),
                )
            },
            Err(e) => if length > old(file).size - old(file).cursor.offset() {
                e is OutOfBounds && final(file).cursor == old(file).cursor
            } else {
                old(file).wf(old(fs)) ==> (e is Io && !old(file).cached(old(fs))) || (e is Utf8 && !valid_utf8(
                    old(file).contents(old(fs)).subrange(
                        old(file).cursor.offset(),
                        old(file).cursor.offset() + length,
                    ),
                ))
            },
        },
{
    match read_bytes(file, fs, length) {
        Ok(raw) => match string_from_utf8(raw.as_slice()) {
            Ok(text) => {
                proof {
                    vstd::utf8::decode_utf8_encode_utf8(raw@);
                }
                Ok(text)
            },
            Err(e) => Err(Error::Utf8(e)),
        },
        Err(e) => Err(e),
    }
}

/// Reads a text that is stored behind its length, a big-endian 16-bit integer.
pub fn read_sized_string<D: BlockDevice>(file: &mut RawByteFile, fs: &mut Filesystem<D>) -> (result:
    Result<String, Error>)
    requires
        old(fs).wf(),
        old(file).sound(old(fs)),
    ensures
        final(fs).cached_from(old(fs)),
        final(fs).same_records(old(fs)),
        final(fs).keeps_cached(old(fs)),
        final(file).same_chain(old(file)),
        final(file).sound(final(fs)),
        result matches Ok(text) ==> vstd::utf8::encode_utf8(text@).len() <= 65535,
        result matches Err(e) ==> e.load_failure(),
        old(file).wf(old(fs)) ==> (match result {
            Ok(text) => {
                let start = old(file).cursor.offset();
                let contents = old(file).contents(old(fs));
                let length = spec_u16_from_be_bytes(contents.subrange(start, start + 2)) as int;
                &&& final(file).wf(final(fs))
                &&& final(file).cursor.offset() == start + 2 + length
                &&& valid_utf8(contents.subrange(start + 2, start + 2 + length))
                &&& text@ == decode_utf8(contents.subrange(start + 2, start + 2 + length))
            },
            Err(e) => {
                let start = old(file).cursor.offset();
                let contents = old(file).contents(old(fs));
                let length = spec_u16_from_be_bytes(contents.subrange(start, start + 2)) as int;
                ||| e is Io && !old(file).cached(old(fs))
                ||| e is OutOfBounds && (start + 2 > contents.len() || start + 2 + length
                    > contents.len())
                ||| e is Utf8 && start + 2 + length <= contents.len() && !valid_utf8(
                    contents.subrange(start + 2, start + 2 + length),
                )
            },
        }),
{
    let length = match read_u16(file, fs) {
        Ok(length) => length,
        Err(e) => {
            return Err(e);
        },
    };
    let ghost middle = *file;
    let ghost middle_fs = *fs;
    proof {
        if old(file).wf(old(fs)) {
            old(file).lemma_wf_stable(old(fs), &middle_fs);
            middle.lemma_same_contents(old(file), &middle_fs);
        }
    }
    read_string(file, fs, length as usize)
}

} // verus!
