//! A seekable, resizable byte stream over a singly linked chain of blocks.

use vstd::prelude::*;
use crate::error::Error;
use crate::filesystem::Filesystem;
use crate::filesystem::device::{BlockDevice, overwritten};
use crate::filetypes::{BlockCursor, RawByteFile, SeekFrom};
use crate::filetypes::helpers::{bytes_per_block, empty_block_data, get_next_block,
    read_from_block, set_next_block, write_to_block, spec_empty_block, spec_next_block,
    spec_payload, spec_with_next, lemma_empty_block, lemma_with_next};
use crate::bytes::zeros;
use crate::structs::{Block, Inode, NULL_BLOCK};

verus! {

/// The `place`-th block of the chain that starts at `first`: `first`
/// itself, then the block that each next-pointer names.
pub open spec fn spec_block_at<D: BlockDevice>(fs: &Filesystem<D>, first: u64, place: nat) -> u64
    decreases place,
{
    if place == 0 {
        first
    } else {
        spec_next_block(fs.block_view(spec_block_at(fs, first, (place - 1) as nat)))
    }
}

/// Filesystems that agree on the next-pointers of the first `length` blocks
/// of a chain have the same chain up to and including place `length`.
pub proof fn lemma_chain_stable<D: BlockDevice>(
    before: &Filesystem<D>,
    after: &Filesystem<D>,
    first: u64,
    length: nat,
)
    requires
        forall|place: nat|
            place < length ==> spec_next_block(
                after.block_view(#[trigger] spec_block_at(before, first, place)),
            ) == spec_next_block(before.block_view(spec_block_at(before, first, place))),
    ensures
        forall|place: nat|
            place <= length ==> #[trigger] spec_block_at(after, first, place) == spec_block_at(
                before,
                first,
                place,
            ),
    decreases length,
{
    if length > 0 {
        lemma_chain_stable(before, after, first, (length - 1) as nat);
        assert(spec_block_at(after, first, (length - 1) as nat) == spec_block_at(
            before,
            first,
            (length - 1) as nat,
        ));
    }
}

/// The offset that a seek asks for, when it lies within a file of `size`
/// bytes whose cursor is at `position`.
pub open spec fn spec_seek_target(pos: SeekFrom, size: u64, position: u64) -> Option<u64> {
    let target = match pos {
        SeekFrom::Start(bytes) => bytes as int,
        SeekFrom::End(bytes) => size + bytes,
        SeekFrom::Current(bytes) => position + bytes,
    };
    if 0 <= target <= size {
        Some(target as u64)
    } else {
        None
    }
}

/// Computes `spec_seek_target`.
pub fn seek_target(pos: SeekFrom, size: u64, position: u64) -> (target: Option<u64>)
    ensures
        target == spec_seek_target(pos, size, position),
{
    let wide: i128 = match pos {
        SeekFrom::Start(bytes) => bytes as i128,
        SeekFrom::End(bytes) => size as i128 + bytes as i128,
        SeekFrom::Current(bytes) => position as i128 + bytes as i128,
    };
    if 0 <= wide && wide <= size as i128 {
        Some(wide as u64)
    } else {
        None
    }
}

/// Payload bytes that follow one another within a block have consecutive offsets.
pub proof fn lemma_within_block(offset: int, step: int, padded: int)
    requires
        0 <= offset,
        0 < padded,
        0 <= step,
        offset % padded + step < padded,
    ensures
        (offset + step) / padded == offset / padded,
        (offset + step) % padded == offset % padded + step,
{
    vstd::arithmetic::div_mod::lemma_fundamental_div_mod(offset, padded);
    vstd::arithmetic::div_mod::lemma_mod_pos_bound(offset, padded);
    assert((offset / padded) * padded == padded * (offset / padded)) by (nonlinear_arith);
    vstd::arithmetic::div_mod::lemma_fundamental_div_mod_converse(
        offset + step,
        padded,
        offset / padded,
        offset % padded + step,
    );
}

/// The payload byte after the last one of a block is the first one of the next block.
pub proof fn lemma_next_block_start(offset: int, step: int, padded: int)
    requires
        0 <= offset,
        0 < padded,
        offset % padded + step == padded,
    ensures
        (offset + step) / padded == offset / padded + 1,
        (offset + step) % padded == 0,
{
    vstd::arithmetic::div_mod::lemma_fundamental_div_mod(offset, padded);
    assert(offset + step == padded * (offset / padded + 1)) by (nonlinear_arith)
        requires
            offset == padded * (offset / padded) + offset % padded,
            offset % padded + step == padded,
    ;
    vstd::arithmetic::div_mod::lemma_fundamental_div_mod_converse(
        offset + step,
        padded,
        offset / padded + 1,
        0,
    );
}

/// An offset below the capacity of `blocks` blocks lies in one of them.
pub proof fn lemma_block_of_offset(offset: int, blocks: int, padded: int)
    requires
        0 <= offset < blocks * padded,
        0 < padded,
    ensures
        0 <= offset / padded < blocks,
        0 <= offset % padded < padded,
{
    vstd::arithmetic::div_mod::lemma_fundamental_div_mod(offset, padded);
    assert(0 <= offset / padded < blocks) by (nonlinear_arith)
        requires
            0 <= offset < blocks * padded,
            0 < padded,
            offset == padded * (offset / padded) + offset % padded,
            0 <= offset % padded < padded,
    ;
}

/// Number of blocks of `padded` payload bytes that hold `end` bytes.
pub open spec fn spec_blocks_for(end: int, padded: int) -> int {
    (end + padded - 1) / padded
}

/// Number of blocks of a file of `count` blocks after it was made to hold
/// `end` bytes: the blocks it had, one at least, and as many as hold the bytes.
pub open spec fn spec_count_after(count: int, end: int, padded: int) -> int {
    let needed = spec_blocks_for(end, padded);
    if needed > count && needed > 1 {
        needed
    } else if count > 1 {
        count
    } else {
        1
    }
}

/// Bytes that end in block `place` take `place + 1` blocks.
pub proof fn lemma_blocks_for(end: int, place: int, padded: int)
    requires
        padded > 0,
        padded * place < end <= padded * (place + 1),
    ensures
        spec_blocks_for(end, padded) == place + 1,
{
    let rest = end - padded * place - 1;
    assert(end + padded - 1 == (place + 1) * padded + rest) by (nonlinear_arith)
        requires
            rest == end - padded * place - 1,
    ;
    vstd::arithmetic::div_mod::lemma_fundamental_div_mod_converse(
        end + padded - 1,
        padded,
        place + 1,
        rest,
    );
}

/// More bytes take no fewer blocks.
pub proof fn lemma_count_after_ordered(count: int, first: int, then: int, padded: int)
    requires
        padded > 0,
        first <= then,
    ensures
        spec_count_after(count, first, padded) <= spec_count_after(count, then, padded),
{
    vstd::arithmetic::div_mod::lemma_div_is_ordered(first + padded - 1, then + padded - 1, padded);
}

/// Making a file hold some bytes and then more is making it hold the more.
pub proof fn lemma_count_after_twice(count: int, first: int, then: int, padded: int)
    requires
        padded > 0,
        0 <= first <= then,
    ensures
        spec_count_after(spec_count_after(count, first, padded), then, padded)
            == spec_count_after(count, then, padded),
{
    vstd::arithmetic::div_mod::lemma_div_is_ordered(first + padded - 1, then + padded - 1, padded);
}

/// Bytes that reach into block `place` take more than `place` blocks.
pub proof fn lemma_blocks_beyond(end: int, place: int, padded: int)
    requires
        padded > 0,
        0 <= place,
        padded * place < end,
    ensures
        spec_blocks_for(end, padded) > place,
{
    assert(padded * (place + 1) == padded * place + padded) by (nonlinear_arith);
    vstd::arithmetic::div_mod::lemma_div_is_ordered(
        padded * (place + 1),
        end + padded - 1,
        padded,
    );
    vstd::arithmetic::div_mod::lemma_div_multiples_vanish(place + 1, padded);
    assert(padded * (place + 1) == (place + 1) * padded) by (nonlinear_arith);
}

/// One byte into block `place` takes `place + 1` blocks.
pub proof fn lemma_block_begun(place: int, padded: int)
    requires
        padded > 0,
    ensures
        spec_blocks_for(padded * place + 1, padded) == place + 1,
{
    assert(padded * (place + 1) == padded * place + padded) by (nonlinear_arith);
    lemma_blocks_for(padded * place + 1, place, padded);
}

/// Bytes that fit in `count` blocks take no more than `count` blocks, and
/// more bytes take no fewer blocks.
pub proof fn lemma_blocks_bounded(end: int, count: int, padded: int)
    requires
        padded > 0,
        0 <= end <= count * padded,
    ensures
        spec_blocks_for(end, padded) <= count,
        0 <= spec_blocks_for(end, padded),
{
    vstd::arithmetic::div_mod::lemma_fundamental_div_mod(end + padded - 1, padded);
    vstd::arithmetic::div_mod::lemma_mod_pos_bound(end + padded - 1, padded);
    let needed = (end + padded - 1) / padded;
    assert(needed <= count) by (nonlinear_arith)
        requires
            end + padded - 1 == padded * needed + (end + padded - 1) % padded,
            0 <= (end + padded - 1) % padded < padded,
            end <= count * padded,
            padded > 0,
    ;
    assert(0 <= needed) by (nonlinear_arith)
        requires
            end + padded - 1 == padded * needed + (end + padded - 1) % padded,
            0 <= (end + padded - 1) % padded < padded,
            end >= 0,
            padded > 0,
    ;
}

/// `contents` with `data` written from offset `start` on: the bytes from
/// `start` on are replaced, and the result is longer when `data` ends
/// beyond the end of `contents`.
pub open spec fn spec_written(contents: Seq<u8>, start: int, data: Seq<u8>) -> Seq<u8> {
    Seq::new(
        (if contents.len() >= start + data.len() {
            contents.len() as int
        } else {
            start + data.len()
        }) as nat,
        |offset: int|
            if start <= offset < start + data.len() {
                data[offset - start]
            } else {
                contents[offset]
            },
    )
}

/// Whether `block` is one of the first `length` blocks of the chain that
/// starts at `first`.
pub open spec fn spec_owns<D: BlockDevice>(
    fs: &Filesystem<D>,
    first: u64,
    length: u64,
    block: u64,
) -> bool {
    exists|place: nat| place < length && #[trigger] spec_block_at(fs, first, place) == block
}

/// Whether `block` is one of the blocks at places `from` to `until - 1` of
/// the chain that starts at `first`.
pub open spec fn spec_owns_from<D: BlockDevice>(
    fs: &Filesystem<D>,
    first: u64,
    from: u64,
    until: u64,
    block: u64,
) -> bool {
    exists|place: nat| from <= place < until && #[trigger] spec_block_at(fs, first, place) == block
}

/// Byte `offset` of the payload of the chain that starts at `first`.
pub open spec fn spec_byte_at<D: BlockDevice>(fs: &Filesystem<D>, first: u64, offset: int) -> u8 {
    fs.block_view(spec_block_at(fs, first, (offset / (fs.superblock.block_size - 8)) as nat))[8
        + offset % (fs.superblock.block_size - 8)]
}

impl RawByteFile {
    /// Payload bytes per block of `fs`.
    pub open spec fn padded<D: BlockDevice>(fs: &Filesystem<D>) -> int {
        fs.superblock.block_size - 8
    }

    /// The `place`-th block of the file's chain.
    #[verifier::inline]
    pub open spec fn block_at<D: BlockDevice>(&self, fs: &Filesystem<D>, place: nat) -> u64 {
        spec_block_at(fs, self.first_block, place)
    }

    /// The cursor addresses payload bytes of blocks of `fs`.
    pub open spec fn sound<D: BlockDevice>(&self, fs: &Filesystem<D>) -> bool {
        &&& self.cursor.block_size == fs.superblock.block_size
        &&& self.cursor.block_padding_front == 8
        &&& self.cursor.block_padding_back == 0
        &&& self.cursor.wf()
        &&& self.cursor.aligned()
        &&& self.cursor.offset() <= u64::MAX
    }

    /// The chain is intact: following the next-pointers from the first block
    /// passes `block_count` distinct allocated blocks and ends at the last
    /// block, which has no successor. A file without blocks has neither a
    /// first nor a last block.
    #[verifier::opaque]
    pub open spec fn linked<D: BlockDevice>(&self, fs: &Filesystem<D>) -> bool {
        if self.block_count == 0 {
            self.first_block == NULL_BLOCK && self.last_block == NULL_BLOCK
        } else {
            &&& forall|place: nat|
                place < self.block_count ==> fs.block_live(#[trigger] self.block_at(fs, place))
                    && fs.block_view(self.block_at(fs, place)).len()
                    == fs.superblock.block_size
            &&& forall|left: nat, right: nat|
                left < right < self.block_count ==> #[trigger] self.block_at(fs, left)
                    != #[trigger] self.block_at(fs, right)
            &&& self.block_at(fs, (self.block_count - 1) as nat) == self.last_block
            &&& spec_next_block(fs.block_view(self.last_block)) == NULL_BLOCK
        }
    }

    /// The file is consistent with `fs`: the chain is intact, the blocks can
    /// hold the size, and the cursor is within the file.
    pub open spec fn wf<D: BlockDevice>(&self, fs: &Filesystem<D>) -> bool {
        &&& fs.wf()
        &&& self.sound(fs)
        &&& self.linked(fs)
        &&& self.size <= self.block_count * Self::padded(fs)
        &&& self.cursor.offset() <= self.size
    }

    /// Byte `offset` of the file as stored in the chain.
    #[verifier::inline]
    pub open spec fn byte_at<D: BlockDevice>(&self, fs: &Filesystem<D>, offset: int) -> u8 {
        spec_byte_at(fs, self.first_block, offset)
    }

    /// The bytes of the file.
    pub open spec fn contents<D: BlockDevice>(&self, fs: &Filesystem<D>) -> Seq<u8> {
        Seq::new(self.size as nat, |offset: int| self.byte_at(fs, offset))
    }

    /// Whether `block` is one of the file's blocks.
    #[verifier::inline]
    pub open spec fn owns<D: BlockDevice>(&self, fs: &Filesystem<D>, block: u64) -> bool {
        spec_owns(fs, self.first_block, self.block_count, block)
    }

    /// A file whose blocks a filesystem sees unchanged and allocated is
    /// linked in that filesystem as before, with the same bytes.
    pub proof fn lemma_linked_stable<D: BlockDevice>(
        &self,
        before: &Filesystem<D>,
        after: &Filesystem<D>,
    )
        requires
            self.linked(before),
            before.superblock.block_size > 8,
            after.superblock.block_size == before.superblock.block_size,
            after.superblock.block_count == before.superblock.block_count,
            forall|place: nat|
                place < self.block_count ==> after.block_view(
                    #[trigger] self.block_at(before, place),
                ) == before.block_view(self.block_at(before, place)) && after.block_live(
                    self.block_at(before, place),
                ),
        ensures
            self.linked(after),
            forall|place: nat|
                place <= self.block_count ==> #[trigger] self.block_at(after, place)
                    == self.block_at(before, place),
            forall|offset: int|
                0 <= offset < self.block_count * Self::padded(before) ==> #[trigger] self.byte_at(
                    after,
                    offset,
                ) == self.byte_at(before, offset),
    {
        reveal(RawByteFile::linked);
        reveal(RawByteFile::extends);
        reveal(RawByteFile::overlaid);
        assert forall|place: nat| place < self.block_count implies spec_next_block(
            after.block_view(#[trigger] spec_block_at(before, self.first_block, place)),
        ) == spec_next_block(
            before.block_view(spec_block_at(before, self.first_block, place)),
        ) by {
            assert(after.block_view(self.block_at(before, place)) == before.block_view(
                self.block_at(before, place),
            ));
        }
        lemma_chain_stable(before, after, self.first_block, self.block_count as nat);
        assert forall|place: nat| place <= self.block_count implies #[trigger] self.block_at(
            after,
            place,
        ) == self.block_at(before, place) by {
            assert(spec_block_at(after, self.first_block, place) == spec_block_at(
                before,
                self.first_block,
                place,
            ));
        }
        if self.block_count > 0 {
            assert forall|place: nat| place < self.block_count implies after.block_live(
                #[trigger] self.block_at(after, place),
            ) && after.block_view(self.block_at(after, place)).len()
                == after.superblock.block_size by {
                assert(before.block_live(self.block_at(before, place)));
            }
            assert forall|left: nat, right: nat| left < right < self.block_count implies #[trigger] self.block_at(
                after,
                left,
            ) != #[trigger] self.block_at(after, right) by {
                assert(self.block_at(before, left) != self.block_at(before, right));
            }
            let last = (self.block_count - 1) as nat;
            assert(self.block_at(before, last) == self.last_block);
        }
        assert forall|offset: int|
            0 <= offset < self.block_count * Self::padded(before) implies #[trigger] self.byte_at(
            after,
            offset,
        ) == self.byte_at(before, offset) by {
            let padded = Self::padded(before);
            let place = (offset / padded) as nat;
            assert(0 <= offset / padded < self.block_count) by (nonlinear_arith)
                requires
                    0 <= offset < self.block_count * padded,
                    padded > 0,
            ;
            assert(self.block_at(after, place) == self.block_at(before, place));
            assert(after.block_view(self.block_at(before, place)) == before.block_view(
                self.block_at(before, place),
            ));
        }
    }

    /// A file that is consistent with a filesystem stays so, with the same
    /// bytes, when the filesystem sees the same bytes in every block and has
    /// the same allocation.
    pub proof fn lemma_wf_blocks_stable<D: BlockDevice>(
        &self,
        before: &Filesystem<D>,
        after: &Filesystem<D>,
    )
        requires
            self.wf(before),
            after.wf(),
            after.same_allocation(before),
            forall|other: u64| #[trigger] after.block_view(other) == before.block_view(other),
        ensures
            self.wf(after),
            self.contents(after) == self.contents(before),
    {
        reveal(RawByteFile::linked);
        after.lemma_same_allocation(before);
        assert forall|place: nat| place < self.block_count implies after.block_view(
            #[trigger] self.block_at(before, place),
        ) == before.block_view(self.block_at(before, place)) && after.block_live(
            self.block_at(before, place),
        ) by {
            assert(before.block_live(self.block_at(before, place)));
        }
        self.lemma_linked_stable(before, after);
        assert(self.contents(after) =~= self.contents(before));
    }

    /// A file that is consistent with a filesystem stays so, with the same
    /// bytes, in a filesystem of the same geometry that sees the same bytes
    /// in every block and has the same blocks allocated.
    pub proof fn lemma_wf_seen<D: BlockDevice>(&self, before: &Filesystem<D>, after: &Filesystem<D>)
        requires
            self.wf(before),
            after.wf(),
            Self::same_geometry(after, before),
            forall|other: u64| #[trigger] after.block_view(other) == before.block_view(other),
            forall|other: u64| #[trigger] after.block_live(other) == before.block_live(other),
        ensures
            self.wf(after),
            self.contents(after) == self.contents(before),
    {
        reveal(RawByteFile::linked);
        assert forall|place: nat| place < self.block_count implies after.block_view(
            #[trigger] self.block_at(before, place),
        ) == before.block_view(self.block_at(before, place)) && after.block_live(
            self.block_at(before, place),
        ) by {
            assert(before.block_live(self.block_at(before, place)));
        }
        self.lemma_linked_stable(before, after);
        assert(self.contents(after) =~= self.contents(before));
    }

    /// A file that is consistent with a filesystem stays so when the
    /// filesystem sees the same records and has the same allocation.
    pub proof fn lemma_wf_stable<D: BlockDevice>(
        &self,
        before: &Filesystem<D>,
        after: &Filesystem<D>,
    )
        requires
            self.wf(before),
            after.wf(),
            after.same_allocation(before),
            after.same_records(before),
        ensures
            self.wf(after),
            self.contents(after) == self.contents(before),
            forall|place: nat|
                place <= self.block_count ==> #[trigger] self.block_at(after, place)
                    == self.block_at(before, place),
    {
        reveal(RawByteFile::linked);
        reveal(RawByteFile::extends);
        reveal(RawByteFile::overlaid);
        after.lemma_same_allocation(before);
        assert forall|place: nat| place < self.block_count implies after.block_view(
            #[trigger] self.block_at(before, place),
        ) == before.block_view(self.block_at(before, place)) && after.block_live(
            self.block_at(before, place),
        ) by {
            assert(before.block_live(self.block_at(before, place)));
        }
        self.lemma_linked_stable(before, after);
        assert(self.contents(after) =~= self.contents(before));
    }

    /// Create an empty file with no allocated blocks
    pub fn new<D: BlockDevice>(fs: &Filesystem<D>) -> (result: Result<Self, Error>)
        requires
            fs.wf(),
        ensures
            result matches Ok(file) && file.wf(fs) && file.first_block == NULL_BLOCK
                && file.last_block == NULL_BLOCK && file.block_count == 0 && file.size == 0
                && file.cursor.offset() == 0 && file.contents(fs) == Seq::<u8>::empty(),
    {
        proof {
            reveal(RawByteFile::linked);
        }
        let cursor = BlockCursor::new(fs, (8, 0));
        let file = Self {
            first_block: NULL_BLOCK,
            last_block: NULL_BLOCK,
            block_count: 0,
            size: 0,
            cursor,
        };
        assert(file.contents(fs) =~= Seq::<u8>::empty());
        Ok(file)
    }

    /// Load file for given [Inode]: the chain and the size are taken from
    /// the record, and the cursor is at the start.
    pub fn load<D: BlockDevice>(fs: &Filesystem<D>, inode: Inode) -> (result: Result<Self, Error>)
        requires
            fs.wf(),
        ensures
            result matches Ok(file) && file == Self::spec_load(fs, inode) && file.sound(fs)
                && file.cursor.offset() == 0,
    {
        let cursor = BlockCursor::new(fs, (8, 0));
        Ok(
            Self {
                first_block: inode.first_block,
                last_block: inode.last_block,
                block_count: inode.block_count,
                size: inode.size,
                cursor,
            },
        )
    }

    /// Every block of an intact chain is allocated and has the block size.
    pub proof fn lemma_block_live<D: BlockDevice>(&self, fs: &Filesystem<D>, place: nat)
        requires
            self.linked(fs),
            place < self.block_count,
        ensures
            fs.block_live(self.block_at(fs, place)),
            fs.block_view(self.block_at(fs, place)).len() == fs.superblock.block_size,
    {
        reveal(RawByteFile::linked);
        reveal(RawByteFile::extends);
    }

    /// In an intact chain every block but the last names its successor,
    /// which is allocated, and the last block names none.
    pub proof fn lemma_successor<D: BlockDevice>(&self, fs: &Filesystem<D>, place: nat)
        requires
            self.linked(fs),
            place < self.block_count,
        ensures
            self.block_at(fs, place + 1) == spec_next_block(
                fs.block_view(self.block_at(fs, place)),
            ),
            place + 1 < self.block_count ==> fs.block_live(self.block_at(fs, place + 1)),
            place + 1 == self.block_count ==> self.block_at(fs, place) == self.last_block
                && spec_next_block(fs.block_view(self.block_at(fs, place))) == NULL_BLOCK,
    {
        reveal(RawByteFile::linked);
        reveal(RawByteFile::extends);
    }

    /// A file that extends another has an intact chain of at least one
    /// block and at least as many as the other, in a filesystem of the same
    /// geometry.
    pub proof fn lemma_extends_facts<D: BlockDevice>(
        &self,
        fs: &Filesystem<D>,
        origin: &Self,
        start: &Filesystem<D>,
    )
        requires
            self.extends(fs, origin, start),
        ensures
            self.linked(fs),
            self.block_count >= 1,
            self.block_count >= origin.block_count,
            fs.superblock.block_size == start.superblock.block_size,
            fs.superblock.block_count == start.superblock.block_count,
            fs.superblock.inode_count == start.superblock.inode_count,
    {
        reveal(RawByteFile::linked);
        reveal(RawByteFile::extends);
    }

    /// What holds of a file's chain and bytes holds of every file with the
    /// same first block, last block and block count.
    pub proof fn lemma_same_chain<D: BlockDevice>(
        &self,
        other: &Self,
        fs: &Filesystem<D>,
        origin: &Self,
        start: &Filesystem<D>,
        first: int,
        data: Seq<u8>,
        total: int,
    )
        requires
            self.first_block == other.first_block,
            self.last_block == other.last_block,
            self.block_count == other.block_count,
        ensures
            self.linked(fs) == other.linked(fs),
            self.extends(fs, origin, start) == other.extends(fs, origin, start),
            self.overlaid(fs, origin, start, first, data, total) == other.overlaid(
                fs,
                origin,
                start,
                first,
                data,
                total,
            ),
            origin.extends(fs, self, start) == origin.extends(fs, other, start),
    {
        reveal(RawByteFile::linked);
        reveal(RawByteFile::extends);
        reveal(RawByteFile::overlaid);
    }

    /// A file with an intact chain has no first block exactly when it has no blocks.
    pub proof fn lemma_first_block<D: BlockDevice>(&self, fs: &Filesystem<D>)
        requires
            fs.wf(),
            self.linked(fs),
        ensures
            (self.block_count == 0) == (self.first_block == NULL_BLOCK),
            self.block_count == 0 ==> self.last_block == NULL_BLOCK,
    {
        reveal(RawByteFile::linked);
        fs.lemma_live_bounded();
        if self.block_count > 0 {
            assert(fs.block_live(self.block_at(fs, 0)));
        }
    }

    /// Whether both filesystems have the same block size and the same counts.
    pub open spec fn same_geometry<D: BlockDevice>(
        after: &Filesystem<D>,
        before: &Filesystem<D>,
    ) -> bool {
        &&& after.superblock.block_size == before.superblock.block_size
        &&& after.superblock.block_count == before.superblock.block_count
        &&& after.superblock.inode_count == before.superblock.inode_count
    }

    /// Whether the file's fields other than the cursor are those of `before`.
    pub open spec fn same_chain(&self, before: &Self) -> bool {
        &&& self.first_block == before.first_block
        &&& self.last_block == before.last_block
        &&& self.block_count == before.block_count
        &&& self.size == before.size
    }

    /// Retrieve file's n-th [Block]. `NullBlock` when the file has no
    /// blocks; `OutOfBounds` when the chain ends before place `position`;
    /// `Io` when a block cannot be read.
    pub fn get_nth_block<D: BlockDevice>(&self, fs: &mut Filesystem<D>, position: u64) -> (result:
        Result<Block, Error>)
        requires
            old(fs).wf(),
        ensures
            final(fs).cached_from(old(fs)),
            final(fs).same_records(old(fs)),
            final(fs).keeps_cached(old(fs)),
            result matches Ok(block) ==> block.data@.len() == old(fs).superblock.block_size,
            result matches Err(e) ==> e.read_failure(),
            self.first_block == NULL_BLOCK ==> (result matches Err(e) && e is NullBlock),
            self.linked(old(fs)) ==> (match result {
                Ok(block) => {
                    &&& position < self.block_count
                    &&& block.index == self.block_at(old(fs), position as nat)
                    &&& block.data@ == old(fs).block_view(block.index)
                },
                Err(e) => if self.block_count == 0 {
                    e is NullBlock
                } else {
                    (e is Io && !self.cached(old(fs))) || (position >= self.block_count && e
                        is OutOfBounds)
                },
            }),
    {
        proof {
            reveal(RawByteFile::linked);
        }
        proof {
            old(fs).lemma_live_bounded();
            if self.linked(old(fs)) && self.block_count > 0 {
                assert(old(fs).block_live(self.block_at(old(fs), 0)));
                assert(old(fs).block_live(
                    self.block_at(old(fs), (self.block_count - 1) as nat),
                ));
            }
        }
        if self.first_block == NULL_BLOCK {
            return Err(Error::NullBlock);
        }
        // Skip lookup for last block
        if self.block_count > 0 && position == self.block_count - 1 {
            return fs.load_block(self.last_block, false);
        }
        let mut current_block = match fs.load_block(self.first_block, false) {
            Ok(block) => block,
            Err(e) => {
                return Err(e);
            },
        };
        let mut current_index: u64 = 0;
        while current_index < position
            invariant
                current_index <= position,
                old(fs).wf(),
                fs.wf(),
                fs.cached_from(old(fs)),
                fs.same_records(old(fs)),
                fs.keeps_cached(old(fs)),
                self.first_block != NULL_BLOCK,
                current_block.data@.len() == old(fs).superblock.block_size,
                self.linked(old(fs)) ==> {
                    &&& self.block_count > 0
                    &&& current_index < self.block_count
                    &&& current_block.index == self.block_at(old(fs), current_index as nat)
                    &&& current_block.data@ == old(fs).block_view(current_block.index)
                },
            decreases position - current_index,
        {
            let next_block = get_next_block(&current_block);
            proof {
                reveal(RawByteFile::linked);
                old(fs).lemma_live_bounded();
                fs.lemma_same_allocation(old(fs));
            }
            if next_block == NULL_BLOCK {
                proof {
                    if self.linked(old(fs)) {
                        if current_index < self.block_count - 1 {
                            assert(old(fs).block_live(
                                self.block_at(old(fs), (current_index + 1) as nat),
                            ));
                        }
                    }
                }
                return Err(Error::OutOfBounds);
            }
            let ghost before = *fs;
            proof {
                if self.linked(old(fs)) {
                    if current_index == self.block_count - 1 {
                        assert(self.block_at(old(fs), current_index as nat) == self.last_block);
                    }
                    assert(old(fs).block_live(self.block_at(old(fs), (current_index + 1) as nat)));
                }
            }
            current_block = match fs.load_block(next_block, false) {
                Ok(block) => block,
                Err(e) => {
                    return Err(e);
                },
            };
            current_index += 1;
        }
        proof {
            if self.linked(old(fs)) {
                assert(old(fs).block_live(self.block_at(old(fs), 0)));
            }
        }
        Ok(current_block)
    }

    /// Moves the cursor: to an offset from the start, from the end, or from
    /// the cursor itself. `OutOfBounds`, with the cursor unmoved, when the
    /// target is before the start or beyond the size. Returns the new offset.
    pub fn seek(&mut self, pos: SeekFrom) -> (result: Result<u64, Error>)
        requires
            old(self).cursor.wf(),
            old(self).cursor.aligned(),
            old(self).cursor.offset() <= u64::MAX,
        ensures
            final(self).same_chain(old(self)),
            match spec_seek_target(pos, old(self).size, old(self).cursor.offset() as u64) {
                Some(target) => {
                    &&& result matches Ok(offset) && offset == target
                    &&& final(self).cursor.placed(&old(self).cursor, target as int)
                    &&& final(self).cursor.wf()
                    &&& final(self).cursor.aligned()
                    &&& final(self).cursor.offset() == target
                },
                None => {
                    &&& result matches Err(e) && e is OutOfBounds
                    &&& final(self).cursor == old(self).cursor
                },
            },
    {
        let position = self.cursor.position();
        match seek_target(pos, self.size, position) {
            Some(target) => Ok(self.cursor.set(target)),
            None => Err(Error::OutOfBounds),
        }
    }

    /// Read contents of the file into an [u8] buffer: fills the whole
    /// buffer with the bytes from the cursor on, and leaves the cursor after
    /// them. `OutOfBounds`, with nothing changed, when fewer bytes are left
    /// than the buffer holds.
    pub fn read<D: BlockDevice>(&mut self, fs: &mut Filesystem<D>, buffer: &mut Vec<u8>) -> (result:
        Result<(), Error>)
        requires
            old(fs).wf(),
            old(self).sound(old(fs)),
        ensures
            final(fs).cached_from(old(fs)),
            final(fs).same_records(old(fs)),
            final(fs).keeps_cached(old(fs)),
            final(buffer)@.len() == old(buffer)@.len(),
            final(self).same_chain(old(self)),
            final(self).sound(final(fs)),
            result matches Err(e) ==> e.read_failure(),
            if old(buffer)@.len() > old(self).size - old(self).cursor.offset() {
                &&& result matches Err(e) && e is OutOfBounds
                &&& final(self).cursor == old(self).cursor
                &&& final(buffer)@ == old(buffer)@
            } else {
                &&& result is Ok ==> final(self).cursor.offset() == old(self).cursor.offset() + old(buffer)@.len()
                &&& old(self).wf(old(fs)) ==> (match result {
                    Ok(_) => {
                        &&& final(buffer)@ == old(self).contents(old(fs)).subrange(
                            old(self).cursor.offset(),
                            old(self).cursor.offset() + old(buffer)@.len(),
                        )
                        &&& final(self).wf(final(fs))
                    },
                    Err(e) => e is Io && !old(self).cached(old(fs)),
                })
            },
    {
        proof {
            reveal(RawByteFile::linked);
        }
        let start = self.cursor.position();
        if start > self.size || buffer.len() as u64 > self.size - start {
            return Err(Error::OutOfBounds);
        }
        let length = buffer.len();
        if length == 0 {
            proof {
                if self.wf(old(fs)) {
                    assert(buffer@ =~= self.contents(old(fs)).subrange(start as int, start as int));
                }
            }
            return Ok(());
        }
        let ghost linked = self.wf(old(fs));
        let ghost padded = Self::padded(old(fs));
        proof {
            if linked {
                lemma_block_of_offset(start as int, self.block_count as int, padded);
                self.cursor.lemma_offset();
            }
        }
        let mut current_block = match self.get_nth_block(fs, self.cursor.block()) {
            Ok(block) => block,
            Err(e) => {
                return Err(e);
            },
        };
        let mut total_read_bytes: usize = 0;
        while total_read_bytes < length
            invariant
                old(fs).wf(),
                fs.wf(),
                fs.cached_from(old(fs)),
                fs.same_records(old(fs)),
                fs.keeps_cached(old(fs)),
                self.same_chain(old(self)),
                self.sound(fs),
                linked == old(self).wf(old(fs)),
                padded == Self::padded(old(fs)),
                start == old(self).cursor.offset(),
                length == buffer@.len(),
                length == old(buffer)@.len(),
                total_read_bytes <= length,
                start + length <= self.size,
                self.cursor.offset() == start + total_read_bytes,
                current_block.data@.len() == old(fs).superblock.block_size,
                linked && total_read_bytes < length ==> {
                    &&& self.cursor.current_block < self.block_count
                    &&& current_block.index == old(self).block_at(
                        old(fs),
                        self.cursor.current_block as nat,
                    )
                    &&& current_block.data@ == old(fs).block_view(current_block.index)
                },
                linked ==> forall|at: int|
                    0 <= at < total_read_bytes ==> buffer@[at] == old(self).byte_at(
                        old(fs),
                        start + at,
                    ),
            ensures
                total_read_bytes == length,
            decreases length - total_read_bytes,
        {
            let ghost offset = self.cursor.offset();
            let ghost block = self.cursor.current_block;
            let ghost byte = self.cursor.current_byte;
            let ghost filled = buffer@;
            proof {
                reveal(RawByteFile::linked);
                self.cursor.lemma_offset();
                assert(self.cursor.padded_block() == padded);
                assert(block == offset / padded);
                assert(byte == 8 + offset % padded);
                vstd::arithmetic::div_mod::lemma_mod_pos_bound(offset, padded);
            }
            let read = read_from_block(&current_block, self.cursor.byte(), buffer, total_read_bytes);
            self.cursor.advance(read as u64);
            proof {
                if linked {
                    assert forall|at: int| 0 <= at < total_read_bytes + read implies buffer@[at]
                        == old(self).byte_at(old(fs), start + at) by {
                        if at >= total_read_bytes {
                            let step = at - total_read_bytes;
                            lemma_within_block(offset, step, padded);
                        } else {
                            assert(buffer@[at] == filled[at]);
                        }
                    }
                    if total_read_bytes + read < length {
                        assert(read == padded - offset % padded);
                        lemma_next_block_start(offset, read as int, padded);
                        lemma_block_of_offset(
                            offset + read,
                            self.block_count as int,
                            padded,
                        );
                        self.cursor.lemma_offset();
                        assert(self.cursor.current_block == block + 1);
                        assert(old(fs).block_live(
                            old(self).block_at(old(fs), (block + 1) as nat),
                        ));
                        assert(old(self).block_at(old(fs), (block + 1) as nat) == spec_next_block(
                            old(fs).block_view(old(self).block_at(old(fs), block as nat)),
                        ));
                    }
                }
            }
            total_read_bytes += read;
            if total_read_bytes == length {
                break;
            }
            proof {
                fs.lemma_same_allocation(old(fs));
            }
            let next_block = get_next_block(&current_block);
            current_block = match fs.load_block(next_block, false) {
                Ok(block) => block,
                Err(e) => {
                    return Err(e);
                },
            };
        }
        proof {
            if linked {
                let wanted = old(self).contents(old(fs)).subrange(start as int, start + length);
                assert forall|at: int| 0 <= at < length implies buffer@[at] == wanted[at] by {
                    assert(wanted[at] == old(self).contents(old(fs))[start + at]);
                }
                assert(buffer@ =~= wanted);
                old(self).lemma_wf_stable(old(fs), fs);
                assert(self.linked(fs)) by {
                    let unmoved = RawByteFile { cursor: old(self).cursor, ..*self };
                    assert(unmoved.linked(fs));
                    assert forall|place: nat| #[trigger] self.block_at(fs, place) == unmoved.block_at(fs, place) by {}
                }
            }
        }
        Ok(())
    }

    /// Whether `self` sees block `index` allocated or not as `live` says,
    /// every other block allocated as `before` does, and the same inodes.
    pub open spec fn allocation_but<D: BlockDevice>(
        after: &Filesystem<D>,
        before: &Filesystem<D>,
        index: u64,
        live: bool,
    ) -> bool {
        &&& after.superblock.block_size == before.superblock.block_size
        &&& after.superblock.block_count == before.superblock.block_count
        &&& after.superblock.inode_count == before.superblock.inode_count
        &&& after.block_live(index) == live
        &&& forall|other: u64|
            other != index ==> #[trigger] after.block_live(other) == before.block_live(other)
        &&& forall|other: u64| #[trigger] after.inode_live(other) == before.inode_live(other)
    }

    /// Whether `after` sees in every block but `first` and `second` the
    /// bytes that `before` sees, and the same inode records.
    pub open spec fn records_but<D: BlockDevice>(
        after: &Filesystem<D>,
        before: &Filesystem<D>,
        first: u64,
        second: u64,
    ) -> bool {
        &&& forall|other: u64|
            other != first && other != second ==> #[trigger] after.block_view(other)
                == before.block_view(other)
        &&& forall|other: u64| #[trigger] after.inode_view(other) == before.inode_view(other)
    }

    /// Initialize first block if file is empty: allocates the lowest free
    /// block, makes it an empty block without a successor, and makes it the
    /// only block of the file, with the cursor at the start. `OutOfMemory`,
    /// with nothing changed, when no block is free.
    pub fn initialize<D: BlockDevice>(&mut self, fs: &mut Filesystem<D>) -> (result: Result<
        (),
        Error,
    >)
        requires
            old(fs).wf(),
            old(self).sound(old(fs)),
        ensures
            final(fs).wf(),
            final(fs).superblock.block_size == old(fs).superblock.block_size,
            final(fs).superblock.block_count == old(fs).superblock.block_count,
            final(fs).superblock.inode_count == old(fs).superblock.inode_count,
            final(fs).same_inodes(old(fs)),
            final(fs).superblock.blocks_free <= old(fs).superblock.blocks_free,
            final(self).sound(final(fs)),
            final(self).size == old(self).size,
            result matches Err(e) && e is OutOfMemory ==> final(fs).spec_free_block() is None,
            match old(fs).spec_free_block() {
                None => {
                    &&& result matches Err(e) && e is OutOfMemory
                    &&& final(fs).unchanged_from(old(fs))
                    &&& *final(self) == *old(self)
                },
                Some(index) => {
                    &&& result matches Err(e) ==> e is Io
                    &&& final(fs).block_live(index)
                    &&& final(fs).superblock.blocks_free == old(fs).superblock.blocks_free - 1
                    &&& result is Ok ==> {
                        &&& final(self).first_block == index
                        &&& final(self).last_block == index
                        &&& final(self).block_count == 1
                        &&& final(self).cursor.offset() == 0
                    }
                    &&& result is Ok ==> {
                        &&& final(self).linked(final(fs))
                        &&& final(fs).block_view(index) == spec_empty_block(
                            old(fs).superblock.block_size as nat,
                        )
                        &&& Self::records_but(final(fs), old(fs), index, index)
                        &&& Self::allocation_but(final(fs), old(fs), index, true)
                    }
                },
            },
    {
        proof {
            reveal(RawByteFile::linked);
        }
        proof {
            old(fs).lemma_free_index();
        }
        let index = match fs.acquire_block() {
            Ok(index) => index,
            Err(e) => {
                proof {
                    fs.lemma_live_bounded();
                    if old(fs).spec_free_block() is None {
                        fs.lemma_same_allocation(old(fs));
                    }
                }
                return Err(e);
            },
        };
        let ghost acquired = *fs;
        let mut block = match fs.load_block(index, true) {
            Ok(block) => block,
            Err(e) => {
                return Err(e);
            },
        };
        let ghost emptied = *fs;
        proof {
            emptied.lemma_same_allocation(&acquired);
        }
        set_next_block(&mut block, NULL_BLOCK);
        proof {
            lemma_empty_block(fs.superblock.block_size as nat);
            assert(block.data@ =~= spec_empty_block(fs.superblock.block_size as nat));
        }
        let flushed = fs.flush_block(&block);
        proof {
            fs.lemma_same_allocation(&emptied);
        }
        if let Err(e) = flushed {
            return Err(e);
        }
        self.first_block = block.index;
        self.last_block = block.index;
        self.block_count = 1;
        self.cursor.reset();
        proof {
            assert(self.block_at(fs, 0) == index);
            assert(Self::records_but(fs, old(fs), index, index)) by {
                assert forall|other: u64| other != index implies #[trigger] fs.block_view(other)
                    == old(fs).block_view(other) by {
                    assert(emptied.block_view(other) == acquired.block_view(other));
                    assert(acquired.block_view(other) == old(fs).block_view(other));
                }
                assert forall|other: u64| #[trigger] fs.inode_view(other) == old(fs).inode_view(other) by {
                    assert(emptied.inode_view(other) == acquired.inode_view(other));
                    assert(acquired.inode_view(other) == old(fs).inode_view(other));
                }
            }
            assert(fs.same_allocation(&acquired));
            Self::lemma_allocation_but(fs, &acquired, old(fs), index, true);
            assert(self.linked(fs));
        }
        Ok(())
    }

    /// Whether `self` is `before` with one block appended to the chain.
    pub open spec fn appended_to(&self, before: &Self, next: u64) -> bool {
        &&& self.first_block == before.first_block
        &&& self.last_block == next
        &&& self.block_count == before.block_count + 1
        &&& self.size == before.size
        &&& self.cursor == before.cursor
    }

    /// Whether the blocks of `self`, a file of `fs`, hold in `after` the
    /// payload that they hold in `fs`, at the same places of the chain.
    pub open spec fn payload_kept<D: BlockDevice>(
        &self,
        fs: &Filesystem<D>,
        grown: &Self,
        after: &Filesystem<D>,
    ) -> bool {
        forall|place: nat|
            place < self.block_count ==> #[trigger] grown.block_at(after, place) == self.block_at(
                fs,
                place,
            ) && spec_payload(after.block_view(self.block_at(fs, place))) == spec_payload(
                fs.block_view(self.block_at(fs, place)),
            )
    }

    /// Linking a free block behind the last block of an intact chain gives
    /// an intact chain that is one block longer and keeps every payload.
    pub proof fn lemma_appended<D: BlockDevice>(
        &self,
        before: &Filesystem<D>,
        grown: &Self,
        after: &Filesystem<D>,
        next: u64,
    )
        requires
            self.linked(before),
            self.block_count > 0,
            before.superblock.block_size > 8,
            grown.appended_to(self, next),
            !before.block_live(next),
            next != NULL_BLOCK,
            Self::allocation_but(after, before, next, true),
            Self::records_but(after, before, self.last_block, next),
            after.block_view(self.last_block) == spec_with_next(
                before.block_view(self.last_block),
                next,
            ),
            after.block_view(next) == spec_empty_block(before.superblock.block_size as nat),
        ensures
            grown.linked(after),
            self.payload_kept(before, grown, after),
            grown.block_at(after, self.block_count as nat) == next,
    {
        reveal(RawByteFile::linked);
        reveal(RawByteFile::extends);
        reveal(RawByteFile::overlaid);
        let count = self.block_count as nat;
        let last = (count - 1) as nat;
        let size = before.superblock.block_size as nat;
        lemma_empty_block(size);
        assert(self.block_at(before, last) == self.last_block);
        assert(before.block_live(self.last_block));
        lemma_with_next(before.block_view(self.last_block), next);
        // The chain up to the old last block is untouched.
        assert forall|place: nat| place < last implies spec_next_block(
            after.block_view(#[trigger] spec_block_at(before, self.first_block, place)),
        ) == spec_next_block(
            before.block_view(spec_block_at(before, self.first_block, place)),
        ) by {
            assert(self.block_at(before, place) != self.block_at(before, last));
            assert(before.block_live(self.block_at(before, place)));
        }
        lemma_chain_stable(before, after, self.first_block, last);
        assert forall|place: nat| place < count implies #[trigger] grown.block_at(after, place)
            == self.block_at(before, place) by {
            assert(spec_block_at(after, self.first_block, place) == spec_block_at(
                before,
                self.first_block,
                place,
            ));
        }
        assert(grown.block_at(after, last) == self.last_block);
        assert(grown.block_at(after, count) == spec_next_block(
            after.block_view(grown.block_at(after, last)),
        ));
        assert(grown.block_at(after, count) == next);
        assert forall|place: nat| place < grown.block_count implies after.block_live(
            #[trigger] grown.block_at(after, place),
        ) && after.block_view(grown.block_at(after, place)).len()
            == after.superblock.block_size by {
            if place < count {
                assert(before.block_live(self.block_at(before, place)));
                if place < last {
                    assert(self.block_at(before, place) != self.block_at(before, last));
                }
            }
        }
        assert forall|left: nat, right: nat| left < right < grown.block_count implies #[trigger] grown.block_at(
            after,
            left,
        ) != #[trigger] grown.block_at(after, right) by {
            assert(before.block_live(self.block_at(before, left)));
            if right < count {
                assert(self.block_at(before, left) != self.block_at(before, right));
            }
        }
        assert forall|place: nat| place < self.block_count implies #[trigger] grown.block_at(
            after,
            place,
        ) == self.block_at(before, place) && spec_payload(
            after.block_view(self.block_at(before, place)),
        ) == spec_payload(before.block_view(self.block_at(before, place))) by {
            assert(before.block_live(self.block_at(before, place)));
            if place < last {
                assert(self.block_at(before, place) != self.block_at(before, last));
            }
        }
    }

    /// Append an empty block to file's end: the lowest free block is
    /// allocated, made an empty block without a successor, and linked behind
    /// the last block. File size and seeking cursor's position are kept.
    /// `OutOfMemory` when no block is free.
    pub fn append_block<D: BlockDevice>(&mut self, fs: &mut Filesystem<D>) -> (result: Result<
        u64,
        Error,
    >)
        requires
            old(fs).wf(),
            old(self).sound(old(fs)),
        ensures
            final(fs).wf(),
            final(fs).superblock.block_size == old(fs).superblock.block_size,
            final(fs).superblock.block_count == old(fs).superblock.block_count,
            final(fs).superblock.inode_count == old(fs).superblock.inode_count,
            final(fs).same_inodes(old(fs)),
            final(fs).superblock.blocks_free <= old(fs).superblock.blocks_free,
            final(self).sound(final(fs)),
            final(self).size == old(self).size,
            final(self).cursor == old(self).cursor,
            final(self).first_block == old(self).first_block,
            result matches Ok(next) ==> final(self).appended_to(old(self), next),
            result is Err ==> final(self).same_chain(old(self)),
            result is Ok ==> final(fs).superblock.blocks_free == old(fs).superblock.blocks_free - 1,
            result matches Err(e) && e is OutOfMemory ==> final(fs).superblock.blocks_free == old(fs).superblock.blocks_free,
            result matches Err(e) ==> {
                ||| e is Io
                ||| e is OutOfMemory && ((old(fs).spec_free_block() is None && final(fs).spec_free_block() is None) || old(self).block_count == u64::MAX)
                ||| e is OutOfBounds && !old(fs).block_live(old(self).last_block)
            },
            old(self).linked(old(fs)) && old(self).block_count > 0
                ==> (match result {
                Ok(next) => {
                    &&& old(fs).spec_free_block() == Some(next)
                    &&& final(self).linked(final(fs))
                    &&& final(self).block_at(final(fs), old(self).block_count as nat) == next
                    &&& old(self).payload_kept(old(fs), final(self), final(fs))
                    &&& final(fs).block_view(next) == spec_empty_block(
                        old(fs).superblock.block_size as nat,
                    )
                    &&& Self::records_but(final(fs), old(fs), old(self).last_block, next)
                    &&& Self::allocation_but(final(fs), old(fs), next, true)
                },
                Err(e) => e is Io || e is OutOfMemory,
            }),
    {
        proof {
            reveal(RawByteFile::linked);
        }
        if self.block_count == u64::MAX {
            return Err(Error::OutOfMemory);
        }
        let ghost intact = self.linked(old(fs)) && self.block_count > 0;
        proof {
            old(fs).lemma_live_bounded();
            old(fs).lemma_free_index();
            if intact {
                assert(self.block_at(old(fs), (self.block_count - 1) as nat) == self.last_block);
                assert(old(fs).block_live(self.last_block));
            }
        }
        let mut old_last_block = match fs.load_block(self.last_block, false) {
            Ok(block) => block,
            Err(e) => {
                return Err(e);
            },
        };
        let ghost loaded = *fs;
        proof {
            loaded.lemma_same_allocation(old(fs));
            loaded.lemma_free_index();
        }
        let next_block: u64 = match fs.acquire_block() {
            Ok(index) => index,
            Err(e) => {
                proof {
                    if loaded.spec_free_block() is None {
                        fs.lemma_same_allocation(&loaded);
                    }
                }
                return Err(e);
            },
        };
        let ghost acquired = *fs;
        proof {
            acquired.lemma_live_bounded();
        }
        set_next_block(&mut old_last_block, next_block);
        let flushed = fs.flush_block(&old_last_block);
        let ghost relinked = *fs;
        proof {
            relinked.lemma_same_allocation(&acquired);
            relinked.lemma_live_bounded();
        }
        if let Err(e) = flushed {
            return Err(e);
        }
        let mut new_last_block = match fs.load_block(next_block, true) {
            Ok(block) => block,
            Err(e) => {
                return Err(e);
            },
        };
        let ghost emptied = *fs;
        proof {
            emptied.lemma_same_allocation(&relinked);
            emptied.lemma_live_bounded();
            lemma_empty_block(fs.superblock.block_size as nat);
        }
        set_next_block(&mut new_last_block, NULL_BLOCK);
        proof {
            assert(new_last_block.data@ =~= spec_empty_block(fs.superblock.block_size as nat));
        }
        let flushed = fs.flush_block(&new_last_block);
        proof {
            fs.lemma_same_allocation(&emptied);
        }
        if let Err(e) = flushed {
            return Err(e);
        }
        let ghost before = *self;
        self.last_block = next_block;
        self.block_count += 1;
        proof {
            if intact {
                let last = before.last_block;
                Self::lemma_allocation_but(fs, &acquired, &loaded, next_block, true);
                assert(Self::allocation_but(fs, old(fs), next_block, true));
                assert(Self::records_but(fs, old(fs), last, next_block)) by {
                    assert forall|other: u64|
                        other != last && other != next_block implies #[trigger] fs.block_view(other)
                        == old(fs).block_view(other) by {
                        assert(emptied.block_view(other) == relinked.block_view(other));
                        assert(relinked.block_view(other) == acquired.block_view(other));
                        assert(acquired.block_view(other) == loaded.block_view(other));
                        assert(loaded.block_view(other) == old(fs).block_view(other));
                    }
                    assert forall|other: u64| #[trigger] fs.inode_view(other) == old(fs).inode_view(other) by {
                        assert(emptied.inode_view(other) == relinked.inode_view(other));
                        assert(relinked.inode_view(other) == acquired.inode_view(other));
                        assert(acquired.inode_view(other) == loaded.inode_view(other));
                        assert(loaded.inode_view(other) == old(fs).inode_view(other));
                    }
                }
                assert(last != next_block);
                assert(fs.block_view(last) == emptied.block_view(last));
                assert(emptied.block_view(last) == relinked.block_view(last));
                assert(fs.block_view(last) == spec_with_next(old(fs).block_view(last), next_block));
                before.lemma_appended(old(fs), self, fs, next_block);
            }
        }
        Ok(next_block)
    }

    /// Whether `self`, a file of `fs`, is `origin`, a file of `start`, after
    /// blocks were appended and payloads rewritten: the chain is intact and
    /// begins with the blocks of `origin`, and outside the file `fs` sees
    /// and has allocated what `start` does.
    #[verifier::opaque]
    pub open spec fn extends<D: BlockDevice>(
        &self,
        fs: &Filesystem<D>,
        origin: &Self,
        start: &Filesystem<D>,
    ) -> bool {
        &&& self.linked(fs)
        &&& self.block_count >= origin.block_count
        &&& self.block_count >= 1
        &&& fs.superblock.block_size == start.superblock.block_size
        &&& fs.superblock.block_count == start.superblock.block_count
        &&& fs.superblock.inode_count == start.superblock.inode_count
        &&& forall|place: nat|
            place < origin.block_count ==> #[trigger] self.block_at(fs, place) == origin.block_at(
                start,
                place,
            )
        &&& forall|other: u64| #[trigger] fs.inode_view(other) == start.inode_view(other)
        &&& forall|other: u64|
            !self.owns(fs, other) ==> #[trigger] fs.block_view(other) == start.block_view(other)
        &&& forall|other: u64|
            !self.owns(fs, other) ==> #[trigger] fs.block_live(other) == start.block_live(other)
        &&& forall|other: u64| #[trigger] fs.inode_live(other) == start.inode_live(other)
    }

    /// Whether the bytes of `self` in `fs` are those of `origin` in `start`
    /// but for the `total` bytes from `first` on, which are the first
    /// `total` bytes of `data`.
    #[verifier::opaque]
    pub open spec fn overlaid<D: BlockDevice>(
        &self,
        fs: &Filesystem<D>,
        origin: &Self,
        start: &Filesystem<D>,
        first: int,
        data: Seq<u8>,
        total: int,
    ) -> bool {
        forall|offset: int|
            0 <= offset < self.block_count * Self::padded(fs) ==> #[trigger] self.byte_at(
                fs,
                offset,
            ) == (if first <= offset < first + total {
                data[offset - first]
            } else if offset < origin.block_count * Self::padded(start) {
                origin.byte_at(start, offset)
            } else {
                0u8
            })
    }

    /// A file extends itself.
    pub proof fn lemma_extends_self<D: BlockDevice>(
        &self,
        fs: &Filesystem<D>,
        first: int,
        data: Seq<u8>,
    )
        requires
            self.linked(fs),
            self.block_count >= 1,
        ensures
            self.extends(fs, self, fs),
            self.overlaid(fs, self, fs, first, data, 0),
    {
        reveal(RawByteFile::linked);
        reveal(RawByteFile::extends);
        reveal(RawByteFile::overlaid);
    }

    /// A first block extends the empty file.
    pub proof fn lemma_extends_first<D: BlockDevice>(
        &self,
        fs: &Filesystem<D>,
        origin: &Self,
        start: &Filesystem<D>,
        first: int,
        data: Seq<u8>,
    )
        requires
            origin.block_count == 0,
            start.superblock.block_size > 8,
            self.block_count == 1,
            self.linked(fs),
            fs.block_view(self.first_block) == spec_empty_block(
                start.superblock.block_size as nat,
            ),
            Self::records_but(fs, start, self.first_block, self.first_block),
            Self::allocation_but(fs, start, self.first_block, true),
        ensures
            self.extends(fs, origin, start),
            self.overlaid(fs, origin, start, first, data, 0),
    {
        reveal(RawByteFile::linked);
        reveal(RawByteFile::extends);
        reveal(RawByteFile::overlaid);
        assert(self.block_at(fs, 0) == self.first_block);
        assert forall|other: u64| !self.owns(fs, other) implies #[trigger] fs.block_view(other)
            == start.block_view(other) by {
            if other == self.first_block {
                assert(self.block_at(fs, 0) == other);
            }
        }
        assert forall|other: u64| !self.owns(fs, other) implies #[trigger] fs.block_live(other)
            == start.block_live(other) by {
            if other == self.first_block {
                assert(self.block_at(fs, 0) == other);
            }
        }
        let padded = Self::padded(fs);
        lemma_empty_block(start.superblock.block_size as nat);
        assert forall|offset: int| 0 <= offset < self.block_count * padded implies #[trigger] self.byte_at(
            fs,
            offset,
        ) == 0u8 by {
            lemma_block_of_offset(offset, 1, padded);
            let view = fs.block_view(self.first_block);
            assert(spec_payload(view)[offset % padded] == view[8 + offset % padded]);
        }
    }

    /// Appending a block to a file that extends `origin` extends `origin`.
    pub proof fn lemma_extends_appended<D: BlockDevice>(
        &self,
        fs: &Filesystem<D>,
        grown: &Self,
        after: &Filesystem<D>,
        next: u64,
        origin: &Self,
        start: &Filesystem<D>,
        first: int,
        data: Seq<u8>,
        total: int,
    )
        requires
            self.extends(fs, origin, start),
            self.overlaid(fs, origin, start, first, data, total),
            fs.superblock.block_size > 8,
            0 <= first,
            0 <= total,
            first + total <= self.block_count * Self::padded(fs),
            grown.appended_to(self, next),
            grown.linked(after),
            self.payload_kept(fs, grown, after),
            after.block_view(next) == spec_empty_block(fs.superblock.block_size as nat),
            grown.block_at(after, self.block_count as nat) == next,
            Self::records_but(after, fs, self.last_block, next),
            Self::allocation_but(after, fs, next, true),
        ensures
            grown.extends(after, origin, start),
            grown.overlaid(after, origin, start, first, data, total),
    {
        reveal(RawByteFile::linked);
        reveal(RawByteFile::extends);
        reveal(RawByteFile::overlaid);
        self.lemma_appended_frame(fs, grown, after, next, origin, start);
        self.lemma_appended_bytes(fs, grown, after, next, origin, start, first, data, total);
    }

    /// The part of `lemma_extends_appended` that concerns the chain and
    /// what lies outside the file.
    pub proof fn lemma_appended_frame<D: BlockDevice>(
        &self,
        fs: &Filesystem<D>,
        grown: &Self,
        after: &Filesystem<D>,
        next: u64,
        origin: &Self,
        start: &Filesystem<D>,
    )
        requires
            self.extends(fs, origin, start),
            grown.appended_to(self, next),
            grown.linked(after),
            self.payload_kept(fs, grown, after),
            grown.block_at(after, self.block_count as nat) == next,
            Self::records_but(after, fs, self.last_block, next),
            Self::allocation_but(after, fs, next, true),
        ensures
            grown.extends(after, origin, start),
    {
        reveal(RawByteFile::linked);
        reveal(RawByteFile::extends);
        reveal(RawByteFile::overlaid);
        let count = self.block_count as nat;
        assert(self.block_at(fs, (count - 1) as nat) == self.last_block);
        assert forall|other: u64| !grown.owns(after, other) implies !self.owns(fs, other)
            && other != self.last_block && other != next by {
            if self.owns(fs, other) {
                let place = choose|place: nat|
                    place < self.block_count && #[trigger] self.block_at(fs, place) == other;
                assert(grown.block_at(after, place) == other);
            }
            if other == self.last_block {
                assert(grown.block_at(after, (count - 1) as nat) == other);
            }
            if other == next {
                assert(grown.block_at(after, count) == other);
            }
        }
        assert forall|place: nat| place < origin.block_count implies #[trigger] grown.block_at(
            after,
            place,
        ) == origin.block_at(start, place) by {
            assert(self.block_at(fs, place) == origin.block_at(start, place));
        }
        assert forall|other: u64| !grown.owns(after, other) implies #[trigger] after.block_view(
            other,
        ) == start.block_view(other) by {
            assert(fs.block_view(other) == start.block_view(other));
        }
        assert forall|other: u64| !grown.owns(after, other) implies #[trigger] after.block_live(
            other,
        ) == start.block_live(other) by {
            assert(fs.block_live(other) == start.block_live(other));
        }
        assert forall|other: u64| #[trigger] after.inode_view(other) == start.inode_view(other) by {
            assert(fs.inode_view(other) == start.inode_view(other));
        }
        assert forall|other: u64| #[trigger] after.inode_live(other) == start.inode_live(other) by {
            assert(fs.inode_live(other) == start.inode_live(other));
        }
    }

    /// The part of `lemma_extends_appended` that concerns the bytes.
    pub proof fn lemma_appended_bytes<D: BlockDevice>(
        &self,
        fs: &Filesystem<D>,
        grown: &Self,
        after: &Filesystem<D>,
        next: u64,
        origin: &Self,
        start: &Filesystem<D>,
        first: int,
        data: Seq<u8>,
        total: int,
    )
        requires
            self.linked(fs),
            self.block_count >= origin.block_count,
            self.block_count >= 1,
            self.overlaid(fs, origin, start, first, data, total),
            fs.superblock.block_size > 8,
            after.superblock.block_size == fs.superblock.block_size,
            start.superblock.block_size == fs.superblock.block_size,
            0 <= first,
            0 <= total,
            first + total <= self.block_count * Self::padded(fs),
            grown.appended_to(self, next),
            grown.linked(after),
            self.payload_kept(fs, grown, after),
            after.block_view(next) == spec_empty_block(fs.superblock.block_size as nat),
            grown.block_at(after, self.block_count as nat) == next,
        ensures
            grown.overlaid(after, origin, start, first, data, total),
    {
        reveal(RawByteFile::linked);
        reveal(RawByteFile::extends);
        reveal(RawByteFile::overlaid);
        let count = self.block_count as nat;
        let padded = Self::padded(fs);
        lemma_empty_block(fs.superblock.block_size as nat);
        assert(grown.block_count * padded == count * padded + padded) by (nonlinear_arith)
            requires
                grown.block_count == count + 1,
        ;
        assert(origin.block_count * padded <= count * padded) by (nonlinear_arith)
            requires
                origin.block_count <= count,
                padded > 0,
        ;
        assert forall|offset: int|
            0 <= offset < grown.block_count * padded implies #[trigger] grown.byte_at(after, offset)
            == (if first <= offset < first + total {
            data[offset - first]
        } else if offset < origin.block_count * Self::padded(start) {
            origin.byte_at(start, offset)
        } else {
            0u8
        }) by {
            lemma_block_of_offset(offset, grown.block_count as int, padded);
            if offset < count * padded {
                lemma_block_of_offset(offset, count as int, padded);
                let place = (offset / padded) as nat;
                assert(grown.block_at(after, place) == self.block_at(fs, place));
                let before_view = fs.block_view(self.block_at(fs, place));
                let after_view = after.block_view(self.block_at(fs, place));
                assert(fs.block_live(self.block_at(fs, place)));
                assert(after.block_live(grown.block_at(after, place)));
                assert(spec_payload(after_view) == spec_payload(before_view));
                Self::lemma_payload_byte(before_view, after_view, offset % padded);
                assert(grown.byte_at(after, offset) == self.byte_at(fs, offset));
            } else {
                Self::lemma_last_place(offset, count as int, padded);
                let view = after.block_view(next);
                assert(spec_payload(view)[offset % padded] == view[8 + offset % padded]);
                assert(grown.block_at(after, (offset / padded) as nat) == next);
                assert(grown.byte_at(after, offset) == view[8 + offset % padded]);
                assert(view[8 + offset % padded] == 0u8);
                assert(!(first <= offset < first + total));
                assert(!(offset < origin.block_count * Self::padded(start)));
            }
        }
    }

    /// Blocks with the same payload have the same payload bytes.
    pub proof fn lemma_payload_byte(left: Seq<u8>, right: Seq<u8>, at: int)
        requires
            spec_payload(left) == spec_payload(right),
            0 <= at,
            8 + at < left.len(),
            left.len() == right.len(),
        ensures
            left[8 + at] == right[8 + at],
    {
        reveal(RawByteFile::linked);
        reveal(RawByteFile::extends);
        reveal(RawByteFile::overlaid);
        assert(spec_payload(left)[at] == left[8 + at]);
        assert(spec_payload(left).len() == spec_payload(right).len());
        assert(spec_payload(right)[at] == right[8 + at]);
    }

    /// An offset in the capacity of the block after `blocks` blocks lies at
    /// place `blocks`.
    pub proof fn lemma_last_place(offset: int, blocks: int, padded: int)
        requires
            0 < padded,
            0 <= blocks,
            blocks * padded <= offset < blocks * padded + padded,
        ensures
            offset / padded == blocks,
            0 <= offset % padded < padded,
    {
        reveal(RawByteFile::linked);
        reveal(RawByteFile::extends);
        reveal(RawByteFile::overlaid);
        vstd::arithmetic::div_mod::lemma_fundamental_div_mod_converse(
            offset,
            padded,
            blocks,
            offset - blocks * padded,
        );
    }

    /// Replacing the bytes of one block of a file by bytes with the same
    /// next-pointer leaves the chain as it is.
    pub proof fn lemma_rewritten_linked<D: BlockDevice>(
        &self,
        fs: &Filesystem<D>,
        after: &Filesystem<D>,
        index: u64,
        bytes: Seq<u8>,
    )
        requires
            self.linked(fs),
            self.block_count >= 1,
            bytes.len() == fs.superblock.block_size,
            spec_next_block(bytes) == spec_next_block(fs.block_view(index)),
            after.with_block_bytes(fs, index, bytes),
            after.superblock.block_size == fs.superblock.block_size,
            forall|other: u64| #[trigger] after.block_live(other) == fs.block_live(other),
        ensures
            self.linked(after),
            forall|at: nat|
                at <= self.block_count ==> #[trigger] self.block_at(after, at) == self.block_at(
                    fs,
                    at,
                ),
    {
        reveal(RawByteFile::linked);
        reveal(RawByteFile::extends);
        reveal(RawByteFile::overlaid);
        assert forall|at: nat| at < self.block_count implies spec_next_block(
            after.block_view(#[trigger] spec_block_at(fs, self.first_block, at)),
        ) == spec_next_block(fs.block_view(spec_block_at(fs, self.first_block, at))) by {
            if self.block_at(fs, at) != index {
                assert(after.block_view(self.block_at(fs, at)) == fs.block_view(
                    self.block_at(fs, at),
                ));
            }
        }
        lemma_chain_stable(fs, after, self.first_block, self.block_count as nat);
        assert forall|at: nat| at <= self.block_count implies #[trigger] self.block_at(after, at)
            == self.block_at(fs, at) by {
            assert(spec_block_at(after, self.first_block, at) == spec_block_at(
                fs,
                self.first_block,
                at,
            ));
        }
        assert forall|at: nat| at < self.block_count implies after.block_live(
            #[trigger] self.block_at(after, at),
        ) && after.block_view(self.block_at(after, at)).len() == after.superblock.block_size by {
            assert(fs.block_live(self.block_at(fs, at)));
            if self.block_at(fs, at) != index {
                assert(after.block_view(self.block_at(fs, at)) == fs.block_view(
                    self.block_at(fs, at),
                ));
            }
        }
        assert forall|left: nat, right: nat|
            left < right < self.block_count implies #[trigger] self.block_at(after, left)
            != #[trigger] self.block_at(after, right) by {
            assert(self.block_at(fs, left) != self.block_at(fs, right));
        }
        let last = (self.block_count - 1) as nat;
        assert(self.block_at(fs, last) == self.last_block);
        if self.last_block != index {
            assert(after.block_view(self.last_block) == fs.block_view(self.last_block));
        }
    }

    /// Rewriting payload bytes within one block of a file overlays them on
    /// the bytes of the file.
    pub proof fn lemma_rewritten_bytes<D: BlockDevice>(
        &self,
        fs: &Filesystem<D>,
        after: &Filesystem<D>,
        origin: &Self,
        start: &Filesystem<D>,
        first: int,
        data: Seq<u8>,
        total: int,
        written: int,
    )
        requires
            self.linked(fs),
            self.overlaid(fs, origin, start, first, data, total),
            fs.superblock.block_size > 8,
            after.superblock.block_size == fs.superblock.block_size,
            0 <= first,
            0 <= total,
            0 < written,
            total + written <= data.len(),
            first + total + written <= self.block_count * Self::padded(fs),
            (first + total) % Self::padded(fs) + written <= Self::padded(fs),
            forall|at: nat|
                at <= self.block_count ==> #[trigger] self.block_at(after, at) == self.block_at(
                    fs,
                    at,
                ),
            after.with_block_bytes(
                fs,
                self.block_at(fs, ((first + total) / Self::padded(fs)) as nat),
                overwritten(
                    fs.block_view(self.block_at(fs, ((first + total) / Self::padded(fs)) as nat)),
                    8 + (first + total) % Self::padded(fs),
                    data.subrange(total, total + written),
                ),
            ),
        ensures
            self.overlaid(after, origin, start, first, data, total + written),
    {
        reveal(RawByteFile::linked);
        reveal(RawByteFile::extends);
        reveal(RawByteFile::overlaid);
        let padded = Self::padded(fs);
        let offset = first + total;
        lemma_block_of_offset(offset, self.block_count as int, padded);
        let place = (offset / padded) as nat;
        let index = self.block_at(fs, place);
        let old_view = fs.block_view(index);
        let new_view = overwritten(
            old_view,
            8 + offset % padded,
            data.subrange(total, total + written),
        );
        assert(fs.block_live(index));
        vstd::arithmetic::div_mod::lemma_fundamental_div_mod(offset, padded);
        assert forall|at: int|
            0 <= at < self.block_count * padded implies #[trigger] self.byte_at(after, at) == (
        if first <= at < first + total + written {
            data[at - first]
        } else if at < origin.block_count * Self::padded(start) {
            origin.byte_at(start, at)
        } else {
            0u8
        }) by {
            lemma_block_of_offset(at, self.block_count as int, padded);
            let at_place = (at / padded) as nat;
            assert(self.block_at(after, at_place) == self.block_at(fs, at_place));
            vstd::arithmetic::div_mod::lemma_fundamental_div_mod(at, padded);
            if at_place == place {
                Self::lemma_same_block(at, offset, padded);
                assert(self.byte_at(after, at) == new_view[8 + at % padded]);
                if offset <= at < offset + written {
                    assert(new_view[8 + at % padded] == data.subrange(total, total + written)[at
                        - offset]);
                } else {
                    assert(new_view[8 + at % padded] == old_view[8 + at % padded]);
                    assert(self.byte_at(fs, at) == old_view[8 + at % padded]);
                }
            } else {
                assert(self.block_at(fs, at_place) != index) by {
                    if at_place < place {
                        assert(self.block_at(fs, at_place) != self.block_at(fs, place));
                    } else {
                        assert(self.block_at(fs, place) != self.block_at(fs, at_place));
                    }
                }
                assert(after.block_view(self.block_at(fs, at_place)) == fs.block_view(
                    self.block_at(fs, at_place),
                ));
                assert(self.byte_at(after, at) == self.byte_at(fs, at));
                Self::lemma_other_block(at, offset, written, padded);
            }
        }
    }

    /// Offsets in one block differ as their places within the block do.
    pub proof fn lemma_same_block(left: int, right: int, padded: int)
        requires
            0 < padded,
            left / padded == right / padded,
        ensures
            left - right == left % padded - right % padded,
    {
        reveal(RawByteFile::linked);
        reveal(RawByteFile::extends);
        reveal(RawByteFile::overlaid);
        vstd::arithmetic::div_mod::lemma_fundamental_div_mod(left, padded);
        vstd::arithmetic::div_mod::lemma_fundamental_div_mod(right, padded);
    }

    /// An offset in another block is outside a range that stays within one block.
    pub proof fn lemma_other_block(at: int, offset: int, written: int, padded: int)
        requires
            0 < padded,
            0 <= at,
            0 <= offset,
            0 <= written,
            at / padded != offset / padded,
            offset % padded + written <= padded,
        ensures
            !(offset <= at < offset + written),
    {
        reveal(RawByteFile::linked);
        reveal(RawByteFile::extends);
        reveal(RawByteFile::overlaid);
        if offset <= at < offset + written {
            vstd::arithmetic::div_mod::lemma_mod_pos_bound(offset, padded);
            lemma_within_block(offset, at - offset, padded);
        }
    }

    /// A file that extends `origin` in one filesystem extends it in another
    /// that has the same chain and allocation and sees the same records
    /// outside the file.
    pub proof fn lemma_extends_same<D: BlockDevice>(
        &self,
        fs: &Filesystem<D>,
        after: &Filesystem<D>,
        origin: &Self,
        start: &Filesystem<D>,
    )
        requires
            self.extends(fs, origin, start),
            self.linked(after),
            after.superblock.block_size == fs.superblock.block_size,
            after.superblock.block_count == fs.superblock.block_count,
            after.superblock.inode_count == fs.superblock.inode_count,
            forall|other: u64| #[trigger] after.inode_view(other) == fs.inode_view(other),
            forall|other: u64|
                !self.owns(fs, other) ==> #[trigger] after.block_view(other) == fs.block_view(other),
            forall|other: u64| #[trigger] after.block_live(other) == fs.block_live(other),
            forall|other: u64| #[trigger] after.inode_live(other) == fs.inode_live(other),
            forall|place: nat|
                place <= self.block_count ==> #[trigger] self.block_at(after, place)
                    == self.block_at(fs, place),
        ensures
            self.extends(after, origin, start),
    {
        reveal(RawByteFile::linked);
        reveal(RawByteFile::extends);
        reveal(RawByteFile::overlaid);
        assert forall|other: u64| !self.owns(after, other) implies !self.owns(fs, other) by {
            if self.owns(fs, other) {
                let at = choose|at: nat|
                    at < self.block_count && #[trigger] self.block_at(fs, at) == other;
                assert(self.block_at(after, at) == other);
            }
        }
        assert forall|at: nat| at < origin.block_count implies #[trigger] self.block_at(after, at)
            == origin.block_at(start, at) by {
            assert(self.block_at(fs, at) == origin.block_at(start, at));
        }
        assert forall|other: u64| !self.owns(after, other) implies #[trigger] after.block_view(
            other,
        ) == start.block_view(other) by {
            assert(fs.block_view(other) == start.block_view(other));
        }
        assert forall|other: u64| !self.owns(after, other) implies #[trigger] after.block_live(
            other,
        ) == start.block_live(other) by {
            assert(fs.block_live(other) == start.block_live(other));
        }
        assert forall|other: u64| #[trigger] after.inode_view(other) == start.inode_view(other) by {
            assert(fs.inode_view(other) == start.inode_view(other));
        }
        assert forall|other: u64| #[trigger] after.inode_live(other) == start.inode_live(other) by {
            assert(fs.inode_live(other) == start.inode_live(other));
        }
    }

    /// With the same chain and the same bytes in every block of the file,
    /// the overlaid bytes stay overlaid.
    pub proof fn lemma_overlaid_same<D: BlockDevice>(
        &self,
        fs: &Filesystem<D>,
        after: &Filesystem<D>,
        origin: &Self,
        start: &Filesystem<D>,
        first: int,
        data: Seq<u8>,
        total: int,
    )
        requires
            self.linked(fs),
            self.overlaid(fs, origin, start, first, data, total),
            fs.superblock.block_size > 8,
            after.superblock.block_size == fs.superblock.block_size,
            after.same_records(fs),
            forall|place: nat|
                place <= self.block_count ==> #[trigger] self.block_at(after, place)
                    == self.block_at(fs, place),
        ensures
            self.overlaid(after, origin, start, first, data, total),
    {
        reveal(RawByteFile::linked);
        reveal(RawByteFile::extends);
        reveal(RawByteFile::overlaid);
        let padded = Self::padded(fs);
        assert forall|at: int|
            0 <= at < self.block_count * padded implies #[trigger] self.byte_at(after, at) == (
        if first <= at < first + total {
            data[at - first]
        } else if at < origin.block_count * Self::padded(start) {
            origin.byte_at(start, at)
        } else {
            0u8
        }) by {
            lemma_block_of_offset(at, self.block_count as int, padded);
            let at_place = (at / padded) as nat;
            assert(self.block_at(after, at_place) == self.block_at(fs, at_place));
            assert(self.byte_at(after, at) == self.byte_at(fs, at));
        }
    }

    /// A file that extends `origin` in one filesystem extends it, with the
    /// same bytes, in another that sees the same records and has the same
    /// allocation.
    pub proof fn lemma_carried<D: BlockDevice>(
        &self,
        fs: &Filesystem<D>,
        after: &Filesystem<D>,
        origin: &Self,
        start: &Filesystem<D>,
        first: int,
        data: Seq<u8>,
        total: int,
    )
        requires
            self.extends(fs, origin, start),
            self.overlaid(fs, origin, start, first, data, total),
            fs.superblock.block_size > 8,
            after.same_allocation(fs),
            after.same_records(fs),
        ensures
            self.extends(after, origin, start),
            self.overlaid(after, origin, start, first, data, total),
            forall|place: nat|
                place <= self.block_count ==> #[trigger] self.block_at(after, place)
                    == self.block_at(fs, place),
    {
        reveal(RawByteFile::linked);
        reveal(RawByteFile::extends);
        reveal(RawByteFile::overlaid);
        after.lemma_same_allocation(fs);
        assert forall|place: nat| place < self.block_count implies after.block_view(
            #[trigger] self.block_at(fs, place),
        ) == fs.block_view(self.block_at(fs, place)) && after.block_live(
            self.block_at(fs, place),
        ) by {
            assert(fs.block_live(self.block_at(fs, place)));
        }
        self.lemma_linked_stable(fs, after);
        self.lemma_extends_same(fs, after, origin, start);
        self.lemma_overlaid_same(fs, after, origin, start, first, data, total);
    }

    /// Write contents of an [u8] buffer into the file, from the cursor on,
    /// and leave the cursor after them. An empty file gets its first block.
    /// File will be extended if buffer exceeds its capacity: blocks are
    /// appended as the bytes need them, and the size grows to the end of the
    /// written bytes. `OutOfMemory` when no block is free; `OutOfBounds`
    /// when the end of the written bytes does not fit in 64 bits.
    pub fn write<D: BlockDevice>(&mut self, fs: &mut Filesystem<D>, buffer: &[u8]) -> (result:
        Result<(), Error>)
        requires
            old(fs).wf(),
            old(self).sound(old(fs)),
        ensures
            final(fs).wf(),
            Self::same_geometry(final(fs), old(fs)),
            final(fs).same_inodes(old(fs)),
            final(fs).superblock.blocks_free <= old(fs).superblock.blocks_free,
            final(self).sound(final(fs)),
            result matches Err(e) && e is OutOfMemory ==> final(fs).spec_free_block() is None
                || (!old(self).wf(old(fs)) && final(self).block_count == u64::MAX),
            old(self).wf(old(fs)) ==> (result matches Err(e) && e is OutOfMemory ==> spec_count_after(
                old(self).block_count as int,
                old(self).cursor.offset() + buffer@.len(),
                Self::padded(old(fs)),
            ) - old(self).block_count > old(fs).superblock.blocks_free),
            old(self).wf(old(fs)) ==> (match result {
                Ok(_) => {
                    let start = old(self).cursor.offset();
                    &&& final(self).wf(final(fs))
                    &&& final(self).extends(final(fs), old(self), old(fs))
                    &&& final(self).cursor.offset() == start + buffer@.len()
                    &&& final(self).block_count == spec_count_after(
                        old(self).block_count as int,
                        start + buffer@.len(),
                        Self::padded(old(fs)),
                    )
                    &&& final(fs).superblock.blocks_free + final(self).block_count == old(fs).superblock.blocks_free + old(self).block_count
                    &&& final(self).contents(final(fs)) == spec_written(
                        old(self).contents(old(fs)),
                        start,
                        buffer@,
                    )
                },
                Err(e) => e is Io || e is OutOfMemory || (e is OutOfBounds && old(self).cursor.offset() + buffer@.len() > u64::MAX),
            }),
    {
        let ghost origin = *self;
        let ghost intact = self.wf(old(fs));
        let ghost first = self.cursor.offset();
        let ghost padded = Self::padded(old(fs));
        proof {
            old(fs).lemma_live_bounded();
            self.cursor.lemma_offset();
            if intact {
                self.lemma_first_block(old(fs));
                if self.block_count > 0 {
                    self.lemma_extends_self(old(fs), first, buffer@);
                }
            }
        }
        if self.first_block == NULL_BLOCK {
            if let Err(e) = self.initialize(fs) {
                proof {
                    if intact {
                        old(fs).lemma_no_free_block();
                        lemma_blocks_bounded(first, 0, padded);
                    }
                }
                return Err(e);
            }
            proof {
                if intact {
                    self.lemma_extends_first(fs, &origin, old(fs), first, buffer@);
                }
            }
        }
        let length = buffer.len();
        let start = self.cursor.position();
        if length as u64 > u64::MAX - start {
            return Err(Error::OutOfBounds);
        }
        if length == 0 {
            proof {
                if intact {
                    assert(origin.block_count == 0 ==> origin.block_count * padded == 0)
                        by (nonlinear_arith);
                    assert(origin.size <= self.block_count * padded) by (nonlinear_arith)
                        requires
                            origin.size <= origin.block_count * padded,
                            origin.block_count <= self.block_count,
                            padded > 0,
                    ;
                    self.lemma_finished(fs, &origin, old(fs), first, buffer@);
                    lemma_blocks_bounded(first, origin.block_count as int, padded);
                }
            }
            return Ok(());
        }
        proof {
            if intact {
                self.cursor.lemma_offset();
                assert(origin.size <= self.block_count * padded) by (nonlinear_arith)
                    requires
                        origin.size <= origin.block_count * padded,
                        origin.block_count <= self.block_count,
                        padded > 0,
                ;
            }
        }
        if self.cursor.block() >= self.block_count {
            let ghost before = *self;
            let ghost before_fs = *fs;
            proof {
                if intact {
                    self.lemma_extends_facts(fs, &origin, old(fs));
                    self.lemma_count_bounded(fs);
                }
            }
            let appended = self.append_block(fs);
            match appended {
                Ok(next) => {
                    proof {
                        if intact {
                            before.lemma_extends_appended(
                                &before_fs,
                                self,
                                fs,
                                next,
                                &origin,
                                old(fs),
                                first,
                                buffer@,
                                0,
                            );
                            Self::lemma_boundary(first, before.block_count as int, padded);
                        }
                    }
                },
                Err(e) => {
                    proof {
                        if intact && e is OutOfMemory {
                            before_fs.lemma_no_free_block();
                            assert(self.cursor.padded_block() == padded);
                            assert(padded * before.block_count <= self.cursor.offset())
                                by (nonlinear_arith)
                                requires
                                    self.cursor.offset() == self.cursor.current_block * padded
                                        + self.cursor.current_byte - 8,
                                    self.cursor.current_block >= before.block_count,
                                    self.cursor.current_byte >= 8,
                                    padded > 0,
                            ;
                            lemma_blocks_beyond(
                                start + length,
                                before.block_count as int,
                                padded,
                            );
                        }
                    }
                    return Err(e);
                },
            }
        }
        let ghost located_fs = *fs;
        let mut current_block = match self.get_nth_block(fs, self.cursor.block()) {
            Ok(block) => block,
            Err(e) => {
                return Err(e);
            },
        };
        proof {
            if intact {
                self.lemma_carried(&located_fs, fs, &origin, old(fs), first, buffer@, 0);
                vstd::arithmetic::div_mod::lemma_fundamental_div_mod(first, padded);
                vstd::arithmetic::div_mod::lemma_mod_pos_bound(first, padded);
                assert(first < self.block_count * padded) by (nonlinear_arith)
                    requires
                        first / padded < self.block_count,
                        first == padded * (first / padded) + first % padded,
                        first % padded < padded,
                        padded > 0,
                {
                }
                assert(origin.size <= self.block_count * padded) by (nonlinear_arith)
                    requires
                        origin.size <= origin.block_count * padded,
                        origin.block_count <= self.block_count,
                        padded > 0,
                ;
            }
        }
        proof {
            if intact {
                lemma_block_begun(self.cursor.current_block as int, padded);
            }
        }
        let mut total_written_bytes: usize = 0;
        while total_written_bytes < length
            invariant
                fs.wf(),
                self.sound(fs),
                old(fs).wf(),
                intact == (old(self).wf(old(fs))),
                padded == Self::padded(fs),
                Self::same_geometry(fs, old(fs)),
                fs.same_inodes(old(fs)),
                fs.superblock.blocks_free <= old(fs).superblock.blocks_free,
                length == buffer@.len(),
                total_written_bytes <= length,
                intact ==> first == start,
                intact ==> first == old(self).cursor.offset(),
                start + length <= u64::MAX,
                self.cursor.offset() == start + total_written_bytes,
                self.size == old(self).size,
                origin == *old(self),
                current_block.data@.len() == fs.superblock.block_size,
                intact ==> self.writing(
                    fs,
                    &origin,
                    old(fs),
                    first,
                    buffer@,
                    total_written_bytes as int,
                    &current_block,
                ),
                intact ==> fs.superblock.blocks_free + self.block_count == old(fs).superblock.blocks_free + origin.block_count,
                intact && total_written_bytes < length ==> self.block_count == spec_count_after(
                    origin.block_count as int,
                    padded * self.cursor.current_block + 1,
                    padded,
                ),
                intact && total_written_bytes == length ==> self.block_count == spec_count_after(
                    origin.block_count as int,
                    start + length,
                    padded,
                ),
            ensures
                total_written_bytes == length,
                intact ==> self.block_count == spec_count_after(
                    origin.block_count as int,
                    start + length,
                    padded,
                ),
                intact ==> fs.superblock.blocks_free + self.block_count == old(fs).superblock.blocks_free + origin.block_count,
            decreases length - total_written_bytes,
        {
            let ghost chunk_place = self.cursor.current_block as int;
            let written = match self.write_chunk(
                fs,
                &mut current_block,
                buffer,
                total_written_bytes,
                Ghost(intact),
                Ghost(origin),
                Ghost(*old(fs)),
                Ghost(first),
            ) {
                Ok(written) => written,
                Err(e) => {
                    return Err(e);
                },
            };
            proof {
                if intact {
                    lemma_block_begun(chunk_place, padded);
                    lemma_blocks_for(start + total_written_bytes + written, chunk_place, padded);
                }
            }
            total_written_bytes += written;
            if total_written_bytes == length {
                break;
            }
            let ghost chunk_fs = *fs;
            current_block = match self.next_chunk(
                fs,
                &current_block,
                buffer,
                total_written_bytes,
                Ghost(intact),
                Ghost(origin),
                Ghost(*old(fs)),
                Ghost(first),
            ) {
                Ok(block) => block,
                Err(e) => {
                    proof {
                        if intact && e is OutOfMemory {
                            fs.lemma_no_free_block();
                            assert(self.cursor.padded_block() == padded);
                            assert(padded * (chunk_place + 1) <= self.cursor.offset())
                                by (nonlinear_arith)
                                requires
                                    self.cursor.offset() == self.cursor.current_block * padded
                                        + self.cursor.current_byte - 8,
                                    self.cursor.current_block == chunk_place + 1,
                                    self.cursor.current_byte >= 8,
                            ;
                            lemma_blocks_beyond(start + length, chunk_place + 1, padded);
                        }
                    }
                    return Err(e);
                },
            };
            proof {
                if intact {
                    lemma_block_begun(chunk_place + 1, padded);
                }
            }
        }
        let ghost filled = *self;
        if self.cursor.position() > self.size {
            self.size = self.cursor.position();
        }
        proof {
            if intact {
                filled.lemma_same_chain(
                    self,
                    fs,
                    &origin,
                    old(fs),
                    first,
                    buffer@,
                    buffer@.len() as int,
                );
                self.lemma_finished(fs, &origin, old(fs), first, buffer@);
            }
        }
        Ok(())
    }

    /// The state of a write that has `total` bytes of `data` behind it: the
    /// file extends `origin` with those bytes overlaid, and the cursor is
    /// after them.
    pub open spec fn written<D: BlockDevice>(
        &self,
        fs: &Filesystem<D>,
        origin: &Self,
        start: &Filesystem<D>,
        first: int,
        data: Seq<u8>,
        total: int,
    ) -> bool {
        &&& 0 <= first
        &&& self.cursor.offset() == first + total
        &&& self.extends(fs, origin, start)
        &&& self.overlaid(fs, origin, start, first, data, total)
        &&& first + total <= self.block_count * Self::padded(fs)
        &&& origin.size <= self.block_count * Self::padded(fs)
    }

    /// The state of a write that has `total` bytes of `data` behind it and
    /// more to go: the file extends `origin` with those bytes overlaid, the
    /// cursor is after them, within the chain, and `current` is the block
    /// under the cursor.
    pub open spec fn writing<D: BlockDevice>(
        &self,
        fs: &Filesystem<D>,
        origin: &Self,
        start: &Filesystem<D>,
        first: int,
        data: Seq<u8>,
        total: int,
        current: &Block,
    ) -> bool {
        &&& self.written(fs, origin, start, first, data, total)
        &&& total < data.len() ==> {
            &&& self.cursor.current_block < self.block_count
            &&& current.index == self.block_at(fs, self.cursor.current_block as nat)
            &&& current.data@ == fs.block_view(current.index)
        }
    }

    /// Copies into the block under the cursor as many bytes of `buffer`,
    /// from `taken` on, as the block has room for, stores the block, and
    /// moves the cursor after them.
    fn write_chunk<D: BlockDevice>(
        &mut self,
        fs: &mut Filesystem<D>,
        current: &mut Block,
        buffer: &[u8],
        taken: usize,
        Ghost(intact): Ghost<bool>,
        Ghost(origin): Ghost<Self>,
        Ghost(start): Ghost<Filesystem<D>>,
        Ghost(first): Ghost<int>,
    ) -> (result: Result<usize, Error>)
        requires
            old(fs).wf(),
            old(self).sound(old(fs)),
            taken < buffer@.len(),
            old(self).cursor.offset() + (buffer@.len() - taken) <= u64::MAX,
            old(current).data@.len() == old(fs).superblock.block_size,
            intact ==> old(self).writing(
                old(fs),
                &origin,
                &start,
                first,
                buffer@,
                taken as int,
                old(current),
            ),
        ensures
            final(fs).wf(),
            Self::same_geometry(final(fs), old(fs)),
            final(fs).same_inodes(old(fs)),
            final(fs).superblock.blocks_free <= old(fs).superblock.blocks_free,
            final(self).sound(final(fs)),
            final(self).same_chain(old(self)),
            final(current).data@.len() == old(fs).superblock.block_size,
            final(fs).superblock.blocks_free == old(fs).superblock.blocks_free,
            match result {
                Ok(written) => {
                    &&& 0 < written <= buffer@.len() - taken
                    &&& final(self).cursor.offset() == old(self).cursor.offset() + written
                    &&& intact ==> Self::padded(old(fs)) * old(self).cursor.current_block < old(self).cursor.offset() + written <= Self::padded(old(fs)) * (old(self).cursor.current_block + 1)
                    &&& intact ==> final(self).written(
                        final(fs),
                        &origin,
                        &start,
                        first,
                        buffer@,
                        taken + written,
                    ) && final(current).index == old(current).index && final(current).index
                        == final(self).block_at(
                        final(fs),
                        old(self).cursor.current_block as nat,
                    ) && final(current).data@ == final(fs).block_view(final(current).index) && (
                    taken + written
                        < buffer@.len() ==> final(self).cursor.current_block == old(self).cursor.current_block + 1 && old(self).cursor.current_block
                        < old(self).block_count)
                },
                Err(e) => !(e is OutOfMemory) && (intact ==> e is Io),
            },
    {
        let ghost padded = Self::padded(fs);
        let ghost offset = self.cursor.offset();
        let ghost place = self.cursor.current_block;
        let ghost before_view = current.data@;
        proof {
            self.cursor.lemma_offset();
            vstd::arithmetic::div_mod::lemma_mod_pos_bound(offset, padded);
            vstd::arithmetic::div_mod::lemma_fundamental_div_mod(offset, padded);
            fs.lemma_live_bounded();
            if intact {
                self.lemma_extends_facts(fs, &origin, &start);
                self.lemma_block_live(fs, place as nat);
            }
        }
        let written = write_to_block(current, self.cursor.byte(), buffer, taken);
        self.cursor.advance(written as u64);
        let flushed = fs.flush_block(current);
        if let Err(e) = flushed {
            return Err(e);
        }
        proof {
            if intact {
                fs.lemma_same_allocation(old(fs));
                assert(current.data@.subrange(0, 8) =~= before_view.subrange(0, 8));
                if written < padded - offset % padded {
                    lemma_within_block(offset, written as int, padded);
                } else {
                    lemma_next_block_start(offset, written as int, padded);
                }
                assert(first + taken + written <= self.block_count * padded) by (nonlinear_arith)
                    requires
                        offset == first + taken,
                        offset == padded * (offset / padded) + offset % padded,
                        offset / padded < self.block_count,
                        offset % padded + written <= padded,
                        padded > 0,
                {
                }
                old(self).lemma_rewritten_linked(old(fs), fs, current.index, current.data@);
                old(self).lemma_extends_same(old(fs), fs, &origin, &start);
                old(self).lemma_rewritten_bytes(
                    old(fs),
                    fs,
                    &origin,
                    &start,
                    first,
                    buffer@,
                    taken as int,
                    written as int,
                );
                self.cursor.lemma_offset();
                if taken + written < buffer@.len() {
                    assert(written == padded - offset % padded);
                }
                assert(padded * place < offset + written <= padded * (place + 1))
                    by (nonlinear_arith)
                    requires
                        offset == padded * (offset / padded) + offset % padded,
                        offset / padded == place,
                        0 <= offset % padded,
                        offset % padded + written <= padded,
                        written > 0,
                        padded > 0,
                ;
                old(self).lemma_same_chain(
                    self,
                    fs,
                    &origin,
                    &start,
                    first,
                    buffer@,
                    taken + written,
                );
            }
        }
        Ok(written)
    }

    /// Finds the block that follows `current` in the chain, appending one
    /// when `current` is the last block, and loads it.
    fn next_chunk<D: BlockDevice>(
        &mut self,
        fs: &mut Filesystem<D>,
        current: &Block,
        buffer: &[u8],
        taken: usize,
        Ghost(intact): Ghost<bool>,
        Ghost(origin): Ghost<Self>,
        Ghost(start): Ghost<Filesystem<D>>,
        Ghost(first): Ghost<int>,
    ) -> (result: Result<Block, Error>)
        requires
            old(fs).wf(),
            old(self).sound(old(fs)),
            taken < buffer@.len(),
            current.data@.len() == old(fs).superblock.block_size,
            intact ==> {
                &&& old(self).written(old(fs), &origin, &start, first, buffer@, taken as int)
                &&& 1 <= old(self).cursor.current_block <= old(self).block_count
                &&& current.index == old(self).block_at(
                    old(fs),
                    (old(self).cursor.current_block - 1) as nat,
                )
                &&& current.data@ == old(fs).block_view(current.index)
            },
        ensures
            final(fs).wf(),
            Self::same_geometry(final(fs), old(fs)),
            final(fs).same_inodes(old(fs)),
            final(fs).superblock.blocks_free <= old(fs).superblock.blocks_free,
            final(self).sound(final(fs)),
            final(self).size == old(self).size,
            final(self).cursor == old(self).cursor,
            match result {
                Ok(block) => {
                    &&& block.data@.len() == old(fs).superblock.block_size
                    &&& intact ==> final(self).block_count == (if old(self).cursor.current_block
                        == old(self).block_count {
                        old(self).block_count + 1
                    } else {
                        old(self).block_count as int
                    })
                    &&& intact ==> final(fs).superblock.blocks_free + final(self).block_count
                        == old(fs).superblock.blocks_free + old(self).block_count
                    &&& intact ==> final(self).writing(
                        final(fs),
                        &origin,
                        &start,
                        first,
                        buffer@,
                        taken as int,
                        &block,
                    )
                },
                Err(e) => {
                    &&& intact ==> e is Io || e is OutOfMemory
                    &&& e is OutOfMemory ==> final(fs).spec_free_block() is None || (!intact
                        && final(self).block_count == u64::MAX)
                    &&& e is OutOfMemory && intact ==> {
                        &&& old(self).cursor.current_block == old(self).block_count
                        &&& final(self).block_count == old(self).block_count
                        &&& final(fs).superblock.blocks_free == old(fs).superblock.blocks_free
                    }
                },
            },
    {
        let ghost padded = Self::padded(fs);
        let ghost place = (self.cursor.current_block - 1) as nat;
        let mut next_block = get_next_block(current);
        proof {
            fs.lemma_live_bounded();
            if intact {
                self.lemma_extends_facts(fs, &origin, &start);
                self.lemma_successor(fs, place);
                self.lemma_count_bounded(fs);
            }
        }
        if next_block == NULL_BLOCK {
            let ghost before = *self;
            next_block = match self.append_block(fs) {
                Ok(next) => next,
                Err(e) => {
                    return Err(e);
                },
            };
            proof {
                if intact {
                    before.lemma_extends_appended(
                        old(fs),
                        self,
                        fs,
                        next_block,
                        &origin,
                        &start,
                        first,
                        buffer@,
                        taken as int,
                    );
                    assert(origin.size <= self.block_count * padded && first + taken
                        <= self.block_count * padded) by (nonlinear_arith)
                        requires
                            origin.size <= before.block_count * padded,
                            first + taken <= before.block_count * padded,
                            before.block_count <= self.block_count,
                            padded > 0,
                    ;
                }
            }
        }
        let ghost linked_fs = *fs;
        proof {
            if intact {
                fs.lemma_live_bounded();
                self.lemma_extends_facts(fs, &origin, &start);
                self.lemma_block_live(fs, place + 1);
            }
        }
        let block = match fs.load_block(next_block, false) {
            Ok(block) => block,
            Err(e) => {
                return Err(e);
            },
        };
        proof {
            if intact {
                self.lemma_carried(&linked_fs, fs, &origin, &start, first, buffer@, taken as int);
            }
        }
        Ok(block)
    }

    /// Extending twice is extending.
    pub proof fn lemma_extends_twice<D: BlockDevice>(
        &self,
        fs: &Filesystem<D>,
        middle: &Self,
        between: &Filesystem<D>,
        origin: &Self,
        start: &Filesystem<D>,
    )
        requires
            self.extends(fs, middle, between),
            middle.extends(between, origin, start),
        ensures
            self.extends(fs, origin, start),
    {
        reveal(RawByteFile::linked);
        reveal(RawByteFile::extends);
        assert forall|place: nat| place < origin.block_count implies #[trigger] self.block_at(
            fs,
            place,
        ) == origin.block_at(start, place) by {
            assert(middle.block_at(between, place) == origin.block_at(start, place));
        }
        assert forall|other: u64| !self.owns(fs, other) implies !middle.owns(between, other) by {
            if middle.owns(between, other) {
                let place = choose|place: nat|
                    place < middle.block_count && #[trigger] middle.block_at(between, place)
                        == other;
                assert(self.block_at(fs, place) == other);
            }
        }
        assert forall|other: u64| !self.owns(fs, other) implies #[trigger] fs.block_view(other)
            == start.block_view(other) by {
            assert(between.block_view(other) == start.block_view(other));
        }
        assert forall|other: u64| !self.owns(fs, other) implies #[trigger] fs.block_live(other)
            == start.block_live(other) by {
            assert(between.block_live(other) == start.block_live(other));
        }
        assert forall|other: u64| #[trigger] fs.inode_view(other) == start.inode_view(other) by {
            assert(between.inode_view(other) == start.inode_view(other));
        }
        assert forall|other: u64| #[trigger] fs.inode_live(other) == start.inode_live(other) by {
            assert(between.inode_live(other) == start.inode_live(other));
        }
    }

    /// Extend the file to a new capacity with trailing zeros: the size
    /// becomes `new_capacity`, the bytes from the old size on are zero, and
    /// blocks are appended as the bytes need them. An empty file gets its
    /// first block. Seeking cursor's position will be kept.
    /// `InsufficientBytes`, with nothing changed, when `new_capacity` is
    /// less than the size; `OutOfMemory` when no block is free.
    pub fn extend<D: BlockDevice>(&mut self, fs: &mut Filesystem<D>, new_capacity: u64) -> (result:
        Result<(), Error>)
        requires
            old(fs).wf(),
            old(self).sound(old(fs)),
        ensures
            final(fs).wf(),
            Self::same_geometry(final(fs), old(fs)),
            final(fs).same_inodes(old(fs)),
            final(fs).superblock.blocks_free <= old(fs).superblock.blocks_free,
            final(self).sound(final(fs)),
            result matches Err(e) && e is OutOfMemory ==> final(fs).spec_free_block() is None
                || (!old(self).wf(old(fs)) && final(self).block_count == u64::MAX),
            new_capacity >= old(self).size && old(self).wf(old(fs)) ==> (result matches Err(e) && e
                is OutOfMemory ==> spec_count_after(
                old(self).block_count as int,
                new_capacity as int,
                Self::padded(old(fs)),
            ) - old(self).block_count > old(fs).superblock.blocks_free),
            new_capacity < old(self).size ==> (result matches Err(e) && e is InsufficientBytes)
                && *final(self) == *old(self) && final(fs).unchanged_from(old(fs)),
            new_capacity >= old(self).size && old(self).wf(old(fs)) ==> (
            match result {
                Ok(_) => {
                    &&& final(self).wf(final(fs))
                    &&& final(self).extends(final(fs), old(self), old(fs))
                    &&& final(self).size == new_capacity
                    &&& final(self).block_count == spec_count_after(
                        old(self).block_count as int,
                        new_capacity as int,
                        Self::padded(old(fs)),
                    )
                    &&& final(fs).superblock.blocks_free + final(self).block_count == old(fs).superblock.blocks_free + old(self).block_count
                    &&& final(self).cursor.offset() == old(self).cursor.offset()
                    &&& final(self).contents(final(fs)) == old(self).contents(old(fs)) + zeros(
                        (new_capacity - old(self).size) as nat,
                    )
                },
                Err(e) => e is Io || e is OutOfMemory,
            }),
    {
        if new_capacity < self.size {
            return Err(Error::InsufficientBytes);
        }
        let ghost origin = *self;
        let ghost intact = self.wf(old(fs));
        let previous_cursor = self.cursor.position();
        let payload = bytes_per_block(fs.superblock.block_size);
        let blank: Vec<u8> = vec![0u8; payload as usize];
        self.cursor.set(self.size);
        let delta = new_capacity - self.size;
        let ghost moved = *self;
        proof {
            if intact {
                origin.lemma_same_chain(&moved, fs, &origin, old(fs), 0, blank@, 0);
                assert(moved.contents(fs) =~= origin.contents(fs));
            }
        }
        // An empty write gives an empty file its first block.
        let started = self.write(fs, vstd::slice::slice_subrange(blank.as_slice(), 0, 0));
        if let Err(e) = started {
            proof {
                if intact {
                    lemma_count_after_ordered(
                        origin.block_count as int,
                        origin.size as int,
                        new_capacity as int,
                        payload as int,
                    );
                }
            }
            return Err(e);
        }
        proof {
            if intact {
                self.lemma_same_chain(self, fs, &moved, old(fs), 0, blank@, 0);
                self.lemma_origin_moved(fs, &moved, &origin, old(fs));
                let none = blank@.subrange(0, 0);
                assert(spec_written(moved.contents(old(fs)), moved.size as int, none)
                    =~= origin.contents(old(fs)) + zeros(0));
                assert(self.contents(fs).len() == self.size);
            }
        }
        let mut filled: u64 = 0;
        while filled < delta
            invariant
                fs.wf(),
                self.sound(fs),
                old(fs).wf(),
                origin == *old(self),
                intact == (old(self).wf(old(fs))),
                Self::same_geometry(fs, old(fs)),
                fs.same_inodes(old(fs)),
                fs.superblock.blocks_free <= old(fs).superblock.blocks_free,
                payload == Self::padded(fs),
                blank@ == zeros(payload as nat),
                filled <= delta,
                delta == new_capacity - old(self).size,
                intact ==> {
                    &&& self.wf(fs)
                    &&& self.extends(fs, &origin, old(fs))
                    &&& self.size == old(self).size + filled
                    &&& self.cursor.offset() == self.size
                    &&& self.contents(fs) == old(self).contents(old(fs)) + zeros(filled as nat)
                    &&& self.block_count == spec_count_after(
                        origin.block_count as int,
                        old(self).size + filled,
                        payload as int,
                    )
                    &&& fs.superblock.blocks_free + self.block_count == old(fs).superblock.blocks_free + origin.block_count
                },
            decreases delta - filled,
        {
            let left = delta - filled;
            let count = if left < payload {
                left as usize
            } else {
                payload as usize
            };
            let ghost before = *self;
            let ghost before_fs = *fs;
            let ghost before_contents = self.contents(fs);
            let written = self.write(fs, vstd::slice::slice_subrange(blank.as_slice(), 0, count));
            if let Err(e) = written {
                proof {
                    if intact {
                        lemma_count_after_twice(
                            origin.block_count as int,
                            old(self).size + filled,
                            old(self).size + filled + count,
                            payload as int,
                        );
                        lemma_count_after_ordered(
                            origin.block_count as int,
                            old(self).size + filled + count,
                            new_capacity as int,
                            payload as int,
                        );
                    }
                }
                return Err(e);
            }
            proof {
                if intact {
                    self.lemma_extends_twice(fs, &before, &before_fs, &origin, old(fs));
                    let chunk = blank@.subrange(0, count as int);
                    assert(chunk =~= zeros(count as nat));
                    assert(spec_written(before_contents, before.size as int, chunk)
                        =~= before_contents + chunk);
                    assert((old(self).contents(old(fs)) + zeros(filled as nat)) + zeros(
                        count as nat,
                    ) =~= old(self).contents(old(fs)) + zeros((filled + count) as nat));
                    lemma_count_after_twice(
                        origin.block_count as int,
                        old(self).size + filled,
                        old(self).size + filled + count,
                        payload as int,
                    );
                    assert(self.contents(fs).len() == self.size);
                }
            }
            filled += count as u64;
        }
        let ghost grown = *self;
        self.cursor.set(previous_cursor);
        proof {
            if intact {
                grown.lemma_same_chain(self, fs, &origin, old(fs), 0, blank@, 0);
                assert(self.contents(fs) =~= grown.contents(fs));
            }
        }
        Ok(())
    }

    /// Extending a file is extending every file with the same chain.
    pub proof fn lemma_origin_moved<D: BlockDevice>(
        &self,
        fs: &Filesystem<D>,
        moved: &Self,
        origin: &Self,
        start: &Filesystem<D>,
    )
        requires
            self.extends(fs, moved, start),
            moved.first_block == origin.first_block,
            moved.last_block == origin.last_block,
            moved.block_count == origin.block_count,
        ensures
            self.extends(fs, origin, start),
    {
        reveal(RawByteFile::linked);
        reveal(RawByteFile::extends);
    }

    /// Whether `block` is one of the file's blocks at place `keep` or later.
    #[verifier::inline]
    pub open spec fn owns_from<D: BlockDevice>(
        &self,
        fs: &Filesystem<D>,
        keep: u64,
        block: u64,
    ) -> bool {
        spec_owns_from(fs, self.first_block, keep, self.block_count, block)
    }

    /// Number of blocks that a file of `size` bytes keeps when it is shrunk:
    /// none for an empty file, else the block that holds byte `size` and
    /// every block before it.
    pub open spec fn spec_kept<D: BlockDevice>(fs: &Filesystem<D>, size: u64) -> int {
        if size == 0 {
            0
        } else {
            size / (Self::padded(fs) as u64) + 1
        }
    }

    /// Whether `self`, a file of `fs`, is `origin`, a file of `start`, cut
    /// after its first `self.block_count` blocks: those blocks are the chain
    /// of `self`, the blocks behind them are free, the last kept block has
    /// no successor, and everything else is as `start` sees it.
    #[verifier::opaque]
    pub open spec fn cut_from<D: BlockDevice>(
        &self,
        fs: &Filesystem<D>,
        origin: &Self,
        start: &Filesystem<D>,
    ) -> bool {
        &&& self.linked(fs)
        &&& self.block_count <= origin.block_count
        &&& Self::same_geometry(fs, start)
        &&& self.block_count > 0 ==> self.first_block == origin.first_block
        &&& forall|place: nat|
            place < self.block_count ==> #[trigger] self.block_at(fs, place) == origin.block_at(
                start,
                place,
            )
        &&& forall|offset: int|
            0 <= offset < self.block_count * Self::padded(fs) ==> #[trigger] self.byte_at(
                fs,
                offset,
            ) == origin.byte_at(start, offset)
        &&& forall|other: u64| #[trigger] fs.inode_view(other) == start.inode_view(other)
        &&& forall|other: u64| #[trigger] fs.inode_live(other) == start.inode_live(other)
        &&& forall|other: u64|
            other != self.last_block ==> #[trigger] fs.block_view(other) == start.block_view(
                other,
            )
        &&& forall|other: u64| #[trigger]
            fs.block_live(other) == (start.block_live(other) && !origin.owns_from(
                start,
                self.block_count,
                other,
            ))
    }

    /// Cutting the chain of an intact file behind its first `keep` blocks
    /// and freeing the blocks behind them gives an intact file with the
    /// bytes that those blocks held.
    pub proof fn lemma_cut<D: BlockDevice>(
        &self,
        fs: &Filesystem<D>,
        origin: &Self,
        start: &Filesystem<D>,
    )
        requires
            start.wf(),
            origin.linked(start),
            self.block_count <= origin.block_count,
            Self::same_geometry(fs, start),
            fs.superblock.block_size > 8,
            if self.block_count == 0 {
                self.first_block == NULL_BLOCK && self.last_block == NULL_BLOCK
            } else {
                &&& self.first_block == origin.first_block
                &&& self.last_block == origin.block_at(start, (self.block_count - 1) as nat)
                &&& fs.block_view(self.last_block) == spec_with_next(
                    start.block_view(self.last_block),
                    NULL_BLOCK,
                )
            },
            forall|other: u64|
                other != self.last_block ==> #[trigger] fs.block_view(other) == start.block_view(
                    other,
                ),
            forall|other: u64| #[trigger] fs.inode_view(other) == start.inode_view(other),
            forall|other: u64| #[trigger] fs.inode_live(other) == start.inode_live(other),
            forall|other: u64| #[trigger]
                fs.block_live(other) == (start.block_live(other) && !origin.owns_from(
                    start,
                    self.block_count,
                    other,
                )),
        ensures
            self.cut_from(fs, origin, start),
    {
        reveal(RawByteFile::linked);
        reveal(RawByteFile::cut_from);
        let keep = self.block_count as nat;
        let padded = Self::padded(fs);
        if keep > 0 {
            let last = (keep - 1) as nat;
            assert(start.block_live(origin.block_at(start, last)));
            lemma_with_next(start.block_view(self.last_block), NULL_BLOCK);
            assert forall|place: nat| place < last implies spec_next_block(
                fs.block_view(#[trigger] spec_block_at(start, origin.first_block, place)),
            ) == spec_next_block(
                start.block_view(spec_block_at(start, origin.first_block, place)),
            ) by {
                assert(origin.block_at(start, place) != origin.block_at(start, last));
            }
            lemma_chain_stable(start, fs, origin.first_block, last);
            assert forall|place: nat| place < keep implies #[trigger] self.block_at(fs, place)
                == origin.block_at(start, place) by {
                assert(spec_block_at(fs, origin.first_block, place) == spec_block_at(
                    start,
                    origin.first_block,
                    place,
                ));
            }
            assert forall|place: nat| place < keep implies fs.block_live(
                #[trigger] self.block_at(fs, place),
            ) && fs.block_view(self.block_at(fs, place)).len() == fs.superblock.block_size by {
                let block = origin.block_at(start, place);
                assert(self.block_at(fs, place) == block);
                assert(start.block_live(block));
                if origin.owns_from(start, self.block_count, block) {
                    let behind = choose|behind: nat|
                        self.block_count <= behind < origin.block_count && #[trigger] spec_block_at(
                            start,
                            origin.first_block,
                            behind,
                        ) == block;
                    assert(origin.block_at(start, place) != origin.block_at(start, behind));
                }
                if place < last {
                    assert(origin.block_at(start, place) != origin.block_at(start, last));
                }
            }
            assert forall|left: nat, right: nat| left < right < keep implies #[trigger] self.block_at(
                fs,
                left,
            ) != #[trigger] self.block_at(fs, right) by {
                assert(origin.block_at(start, left) != origin.block_at(start, right));
            }
            assert(self.block_at(fs, last) == self.last_block);
            assert(spec_next_block(fs.block_view(self.last_block)) == NULL_BLOCK);
            assert(self.linked(fs));
            assert forall|offset: int| 0 <= offset < keep * padded implies #[trigger] self.byte_at(
                fs,
                offset,
            ) == origin.byte_at(start, offset) by {
                lemma_block_of_offset(offset, keep as int, padded);
                let place = (offset / padded) as nat;
                let block = origin.block_at(start, place);
                assert(self.block_at(fs, place) == block);
                assert(start.block_live(block));
                if block == self.last_block {
                    Self::lemma_payload_byte(
                        start.block_view(block),
                        fs.block_view(block),
                        offset % padded,
                    );
                } else {
                    assert(fs.block_view(block) == start.block_view(block));
                }
            }
        } else {
            assert(keep * padded == 0) by (nonlinear_arith)
                requires
                    keep == 0,
            ;
        }
    }

    /// What `cut_from` says, for use where the definition is hidden.
    pub proof fn lemma_cut_facts<D: BlockDevice>(
        &self,
        fs: &Filesystem<D>,
        origin: &Self,
        start: &Filesystem<D>,
    )
        requires
            self.cut_from(fs, origin, start),
        ensures
            self.linked(fs),
            forall|offset: int|
                0 <= offset < self.block_count * Self::padded(fs) ==> #[trigger] self.byte_at(
                    fs,
                    offset,
                ) == origin.byte_at(start, offset),
            forall|other: u64| #[trigger] fs.inode_view(other) == start.inode_view(other),
            forall|other: u64| #[trigger] fs.inode_live(other) == start.inode_live(other),
            forall|other: u64|
                other != self.last_block ==> #[trigger] fs.block_view(other) == start.block_view(
                    other,
                ),
            forall|other: u64| #[trigger]
                fs.block_live(other) == (start.block_live(other) && !origin.owns_from(
                    start,
                    self.block_count,
                    other,
                )),
    {
        reveal(RawByteFile::cut_from);
    }

    /// Shrink the file to a new capacity: the blocks behind the one that
    /// holds byte `new_capacity` are released, that block becomes the last
    /// one, and the size becomes `new_capacity`. Shrinking to nothing
    /// releases every block. Seeking cursor's position will be kept only if
    /// it remains inside shrinked file, otherwise it is set to zero.
    /// `OutOfBounds`, with nothing changed, when `new_capacity` is more than
    /// the size. Shrinking to the size itself changes nothing, unless the
    /// size is zero and the file has blocks, which are then released.
    pub fn shrink<D: BlockDevice>(&mut self, fs: &mut Filesystem<D>, new_capacity: u64) -> (result:
        Result<(), Error>)
        requires
            old(fs).wf(),
            old(self).sound(old(fs)),
        ensures
            final(fs).wf(),
            Self::same_geometry(final(fs), old(fs)),
            final(fs).same_inodes(old(fs)),
            final(fs).superblock.blocks_free >= old(fs).superblock.blocks_free,
            final(self).sound(final(fs)),
            new_capacity > old(self).size ==> (result matches Err(e) && e is OutOfBounds)
                && *final(self) == *old(self) && final(fs).unchanged_from(old(fs)),
            new_capacity == old(self).size && (new_capacity > 0 || old(self).block_count == 0)
                ==> result is Ok && *final(self) == *old(self) && final(fs).unchanged_from(
                old(fs),
            ),
            (new_capacity < old(self).size || (new_capacity == 0 && old(self).block_count > 0))
                && old(self).wf(old(fs)) ==> (match result {
                Ok(_) => {
                    &&& final(self).wf(final(fs))
                    &&& final(self).cut_from(final(fs), old(self), old(fs))
                    &&& final(self).size == new_capacity
                    &&& final(self).block_count == Self::spec_kept(old(fs), new_capacity)
                    &&& final(fs).superblock.blocks_free + final(self).block_count == old(fs).superblock.blocks_free + old(self).block_count
                    &&& new_capacity == 0 ==> forall|other: u64| #[trigger]
                        final(fs).block_view(other) == old(fs).block_view(other)
                    &&& forall|other: u64| #[trigger]
                        final(fs).inode_view(other) == old(fs).inode_view(other)
                    &&& final(self).cursor.offset() == (if new_capacity < old(self).cursor.offset() {
                        0
                    } else {
                        old(self).cursor.offset()
                    })
                    &&& final(self).contents(final(fs)) == old(self).contents(old(fs)).subrange(
                        0,
                        new_capacity as int,
                    )
                },
                Err(e) => e is Io,
            }),
    {
        if new_capacity > self.size {
            return Err(Error::OutOfBounds);
        }
        if new_capacity == self.size && (new_capacity > 0 || self.block_count == 0) {
            return Ok(());
        }
        let ghost origin = *self;
        let ghost intact = self.wf(old(fs));
        let ghost padded = Self::padded(old(fs));
        let previous_cursor = self.cursor.position();
        self.cursor.set(new_capacity);
        let ghost moved = *self;
        proof {
            self.cursor.lemma_offset();
            old(fs).lemma_live_bounded();
            vstd::arithmetic::div_mod::lemma_fundamental_div_mod(new_capacity as int, padded);
            vstd::arithmetic::div_mod::lemma_mod_pos_bound(new_capacity as int, padded);
            if intact {
                origin.lemma_same_chain(&moved, old(fs), &origin, old(fs), 0, Seq::empty(), 0);
                origin.lemma_first_block(old(fs));
                assert(origin.block_count > 0) by (nonlinear_arith)
                    requires
                        origin.size <= origin.block_count * padded,
                        origin.size > 0 || origin.block_count > 0,
                ;
                if new_capacity > 0 {
                    lemma_block_of_offset(new_capacity as int, origin.block_count as int, padded);
                }
                origin.lemma_block_live(old(fs), self.cursor.current_block as nat);
                origin.lemma_successor(old(fs), self.cursor.current_block as nat);
            }
        }
        let keep: u64 = if new_capacity == 0 {
            0
        } else {
            match self.cursor.block().checked_add(1) {
                Some(keep) => keep,
                None => {
                    return Err(Error::OutOfBounds);
                },
            }
        };
        let mut last_block = match self.get_nth_block(fs, self.cursor.block()) {
            Ok(block) => block,
            Err(e) => {
                return Err(e);
            },
        };
        let ghost located = *fs;
        let ghost kept_view = last_block.data@;
        let mut doomed = if new_capacity == 0 {
            last_block.index
        } else {
            get_next_block(&last_block)
        };
        proof {
            located.lemma_same_allocation(old(fs));
        }
        if new_capacity > 0 {
            set_next_block(&mut last_block, NULL_BLOCK);
            if let Err(e) = fs.flush_block(&last_block) {
                return Err(e);
            }
        }
        let ghost severed = *fs;
        proof {
            severed.lemma_same_allocation(&located);
            if intact {
                assert forall|other: u64|
                    other != last_block.index || new_capacity == 0 implies #[trigger] severed.block_view(
                    other,
                ) == old(fs).block_view(other) by {
                    assert(located.block_view(other) == old(fs).block_view(other));
                }
                assert forall|other: u64| #[trigger]
                    severed.inode_view(other) == old(fs).inode_view(other) by {
                    assert(located.inode_view(other) == old(fs).inode_view(other));
                }
                assert forall|other: u64| #[trigger]
                    fs.block_live(other) == (old(fs).block_live(other) && !spec_owns_from(
                        old(fs),
                        origin.first_block,
                        keep,
                        keep,
                        other,
                    )) by {
                    assert(located.block_live(other) == old(fs).block_live(other));
                }
            }
        }
        let mut place: u64 = keep;
        while place < self.block_count
            invariant
                fs.wf(),
                old(fs).wf(),
                self.sound(fs),
                Self::same_geometry(fs, old(fs)),
                fs.same_inodes(old(fs)),
                fs.superblock.blocks_free >= old(fs).superblock.blocks_free,
                origin == *old(self),
                self.same_chain(old(self)),
                keep <= place,
                padded == Self::padded(old(fs)),
                new_capacity <= old(self).size,
                new_capacity < old(self).size || (new_capacity == 0 && old(self).block_count > 0),
                intact == (old(self).wf(old(fs))),
                intact ==> {
                    &&& place <= origin.block_count
                    &&& 0 < keep <= origin.block_count || new_capacity == 0
                    &&& new_capacity > 0 ==> last_block.index == origin.block_at(
                        old(fs),
                        (keep - 1) as nat,
                    )
                    &&& doomed == origin.block_at(old(fs), place as nat)
                    &&& fs.superblock.blocks_free == old(fs).superblock.blocks_free + (place
                        - keep)
                    &&& forall|other: u64| #[trigger]
                        fs.block_view(other) == severed.block_view(other)
                    &&& forall|other: u64| #[trigger]
                        fs.inode_view(other) == old(fs).inode_view(other)
                    &&& forall|other: u64| #[trigger]
                        fs.inode_live(other) == old(fs).inode_live(other)
                    &&& forall|other: u64| #[trigger]
                        fs.block_live(other) == (old(fs).block_live(other) && !spec_owns_from(
                            old(fs),
                            origin.first_block,
                            keep,
                            place,
                            other,
                        ))
                    &&& forall|other: u64|
                        other != last_block.index || new_capacity == 0 ==> #[trigger] severed.block_view(
                            other,
                        ) == old(fs).block_view(other)
                },
            decreases self.block_count - place,
        {
            proof {
                fs.lemma_live_bounded();
                old(fs).lemma_live_bounded();
                if intact {
                    origin.lemma_block_live(old(fs), place as nat);
                    origin.lemma_successor(old(fs), place as nat);
                    origin.lemma_not_doomed(old(fs), keep, place, doomed);
                    if new_capacity > 0 {
                        origin.lemma_distinct(old(fs), (keep - 1) as nat, place as nat);
                    }
                }
            }
            if doomed == NULL_BLOCK {
                return Err(Error::OutOfBounds);
            }
            let ghost before_load = *fs;
            let block = match fs.load_block(doomed, false) {
                Ok(block) => block,
                Err(e) => {
                    return Err(e);
                },
            };
            let ghost loaded = *fs;
            proof {
                loaded.lemma_same_allocation(&before_load);
                loaded.lemma_live_bounded();
            }
            let next = get_next_block(&block);
            if let Err(e) = fs.release_block(doomed) {
                return Err(e);
            }
            proof {
                if intact {
                    origin.lemma_released(old(fs), fs, &loaded, keep, place, doomed);
                    assert forall|other: u64| #[trigger]
                        fs.block_view(other) == severed.block_view(other) by {
                        assert(loaded.block_view(other) == before_load.block_view(other));
                    }
                    assert forall|other: u64| #[trigger]
                        fs.inode_view(other) == old(fs).inode_view(other) by {
                        assert(loaded.inode_view(other) == before_load.inode_view(other));
                    }
                    assert(block.data@ == old(fs).block_view(doomed));
                }
            }
            doomed = next;
            place += 1;
        }
        if new_capacity > 0 {
            self.size = new_capacity;
            self.last_block = last_block.index;
            self.block_count = keep;
            if new_capacity < previous_cursor {
                self.cursor.reset();
            } else {
                self.cursor.set(previous_cursor);
            }
        } else {
            self.block_count = 0;
            self.size = 0;
            self.first_block = NULL_BLOCK;
            self.last_block = NULL_BLOCK;
            self.cursor.reset();
        }
        proof {
            if intact {
                if new_capacity > 0 {
                    origin.lemma_block_live(old(fs), (keep - 1) as nat);
                    assert(fs.block_view(self.last_block) == severed.block_view(self.last_block));
                }
                self.lemma_cut(fs, &origin, old(fs));
                self.lemma_cut_facts(fs, &origin, old(fs));
                vstd::arithmetic::div_mod::lemma_fundamental_div_mod(new_capacity as int, padded);
                vstd::arithmetic::div_mod::lemma_mod_pos_bound(new_capacity as int, padded);
                if new_capacity > 0 {
                    assert(new_capacity <= keep * padded) by (nonlinear_arith)
                        requires
                            keep == new_capacity as int / padded + 1,
                            padded > 0,
                            new_capacity as int == padded * (new_capacity as int / padded)
                                + new_capacity as int % padded,
                            new_capacity as int % padded < padded,
                    {
                    }
                }
                assert(self.contents(fs) =~= origin.contents(old(fs)).subrange(
                    0,
                    new_capacity as int,
                ));
            }
        }
        Ok(())
    }

    /// Blocks at different places of an intact chain differ.
    pub proof fn lemma_distinct<D: BlockDevice>(&self, fs: &Filesystem<D>, left: nat, right: nat)
        requires
            self.linked(fs),
            left < right < self.block_count,
        ensures
            self.block_at(fs, left) != self.block_at(fs, right),
    {
        reveal(RawByteFile::linked);
    }

    /// A block of an intact chain behind the kept ones is allocated and was
    /// not released with the blocks before it.
    pub proof fn lemma_not_doomed<D: BlockDevice>(
        &self,
        fs: &Filesystem<D>,
        keep: u64,
        place: u64,
        block: u64,
    )
        requires
            self.linked(fs),
            keep <= place < self.block_count,
            block == self.block_at(fs, place as nat),
        ensures
            fs.block_live(block),
            !spec_owns_from(fs, self.first_block, keep, place, block),
    {
        reveal(RawByteFile::linked);
        if spec_owns_from(fs, self.first_block, keep, place, block) {
            let behind = choose|behind: nat|
                keep <= behind < place && #[trigger] spec_block_at(fs, self.first_block, behind)
                    == block;
            assert(self.block_at(fs, behind) != self.block_at(fs, place as nat));
        }
    }

    /// Releasing the next block behind the kept ones adds it to the released ones.
    pub proof fn lemma_released<D: BlockDevice>(
        &self,
        start: &Filesystem<D>,
        after: &Filesystem<D>,
        before: &Filesystem<D>,
        keep: u64,
        place: u64,
        block: u64,
    )
        requires
            keep <= place < self.block_count,
            block == self.block_at(start, place as nat),
            start.block_live(block),
            after.with_block(before, block, false),
            forall|other: u64| #[trigger]
                before.block_live(other) == (start.block_live(other) && !spec_owns_from(
                    start,
                    self.first_block,
                    keep,
                    place,
                    other,
                )),
            forall|other: u64| #[trigger] before.inode_live(other) == start.inode_live(other),
        ensures
            forall|other: u64| #[trigger]
                after.block_live(other) == (start.block_live(other) && !spec_owns_from(
                    start,
                    self.first_block,
                    keep,
                    (place + 1) as u64,
                    other,
                )),
            forall|other: u64| #[trigger] after.inode_live(other) == start.inode_live(other),
            after.same_records(before),
    {
        assert forall|other: u64| #[trigger]
            after.block_live(other) == (start.block_live(other) && !spec_owns_from(
                start,
                self.first_block,
                keep,
                (place + 1) as u64,
                other,
            )) by {
            let was = spec_owns_from(start, self.first_block, keep, place, other);
            let is = spec_owns_from(start, self.first_block, keep, (place + 1) as u64, other);
            if other == block {
                assert(spec_block_at(start, self.first_block, place as nat) == other);
            } else {
                assert(after.block_live(other) == before.block_live(other));
                if is {
                    let behind = choose|behind: nat|
                        keep <= behind < place + 1 && #[trigger] spec_block_at(
                            start,
                            self.first_block,
                            behind,
                        ) == other;
                    assert(behind != place);
                    assert(spec_block_at(start, self.first_block, behind) == other);
                }
                if was {
                    let behind = choose|behind: nat|
                        keep <= behind < place && #[trigger] spec_block_at(
                            start,
                            self.first_block,
                            behind,
                        ) == other;
                    assert(spec_block_at(start, self.first_block, behind) == other);
                }
            }
        }
        assert forall|other: u64| #[trigger] after.inode_live(other) == start.inode_live(other) by {
            assert(after.inode_live(other) == before.inode_live(other));
        }
    }

    /// A cursor that addresses blocks of one filesystem addresses blocks of
    /// every filesystem with the same block size.
    pub proof fn lemma_sound_anywhere<D: BlockDevice>(
        &self,
        fs: &Filesystem<D>,
        other: &Filesystem<D>,
    )
        requires
            self.sound(fs),
            other.superblock.block_size == fs.superblock.block_size,
        ensures
            self.sound(other),
    {
    }

    /// Files with the same chain and size have the same bytes.
    pub proof fn lemma_same_contents<D: BlockDevice>(&self, other: &Self, fs: &Filesystem<D>)
        requires
            self.same_chain(other),
        ensures
            self.contents(fs) == other.contents(fs),
    {
        assert(self.contents(fs) =~= other.contents(fs));
    }

    /// The file that an inode record describes, with the cursor at the start.
    pub open spec fn spec_load<D: BlockDevice>(fs: &Filesystem<D>, inode: Inode) -> Self {
        RawByteFile {
            first_block: inode.first_block,
            last_block: inode.last_block,
            block_count: inode.block_count,
            size: inode.size,
            cursor: BlockCursor {
                block_size: fs.superblock.block_size as usize,
                block_padding_front: 8,
                block_padding_back: 0,
                current_block: 0,
                current_byte: 8,
            },
        }
    }

    /// A record that holds the chain of a consistent file and a size within
    /// the file's describes a consistent file with the first bytes of the
    /// file, as many as that size, in every filesystem that sees the same
    /// bytes in every block and has the same allocation.
    pub proof fn lemma_described<D: BlockDevice>(
        &self,
        before: &Filesystem<D>,
        after: &Filesystem<D>,
        record: Inode,
    )
        requires
            self.wf(before),
            after.wf(),
            after.same_allocation(before),
            forall|other: u64| #[trigger] after.block_view(other) == before.block_view(other),
            record.first_block == self.first_block,
            record.last_block == self.last_block,
            record.block_count == self.block_count,
            record.size <= self.size,
        ensures
            Self::spec_load(after, record).wf(after),
            Self::spec_load(after, record).contents(after) == self.contents(before).subrange(
                0,
                record.size as int,
            ),
            record.size == self.size ==> Self::spec_load(after, record).contents(after)
                == self.contents(before),
    {
        self.lemma_wf_blocks_stable(before, after);
        let described = Self::spec_load(after, record);
        assert(described.cursor.placed(&self.cursor, 0));
        described.cursor.lemma_placed(&self.cursor, 0);
        let moved = RawByteFile { cursor: described.cursor, ..*self };
        self.lemma_seek_keeps_wf(after, &moved);
        self.lemma_same_chain(&described, after, self, after, 0, Seq::empty(), 0);
        assert(described.contents(after) =~= self.contents(before).subrange(
            0,
            record.size as int,
        ));
        if record.size == self.size {
            assert(self.contents(before).subrange(0, record.size as int) =~= self.contents(
                before,
            ));
        }
    }

    /// Whether `after` is `before` without the file that `record` describes:
    /// the inode that the record names is released, and every block of the
    /// file, and nothing else.
    pub open spec fn released<D: BlockDevice>(
        after: &Filesystem<D>,
        before: &Filesystem<D>,
        record: Inode,
    ) -> bool {
        &&& after.inodes_but(before, record.index, false)
        &&& forall|other: u64|
            other != NULL_BLOCK ==> #[trigger] after.block_view(other) == before.block_view(other)
        &&& forall|other: u64| #[trigger] after.inode_view(other) == before.inode_view(other)
        &&& after.superblock.blocks_free == before.superblock.blocks_free + Self::spec_load(
            before,
            record,
        ).block_count
        &&& forall|other: u64| #[trigger]
            after.block_live(other) == (before.block_live(other) && !Self::spec_load(
                before,
                record,
            ).owns(before, other))
    }

    /// Whether `after` has the inodes of `before` allocated but the one that
    /// the record of inode `inode` names, which was allocated and is free.
    pub open spec fn inode_released<D: BlockDevice>(
        after: &Filesystem<D>,
        before: &Filesystem<D>,
        inode: u64,
    ) -> bool {
        match before.inode_view(inode) {
            Some(record) => after.inodes_but(before, record.index, false),
            None => false,
        }
    }

    /// The inode that a removal released from a filesystem it released from
    /// every filesystem with the same allocation that sees the same records.
    pub proof fn lemma_inode_released_stable<D: BlockDevice>(
        after: &Filesystem<D>,
        loaded: &Filesystem<D>,
        before: &Filesystem<D>,
        inode: u64,
    )
        requires
            loaded.same_allocation(before),
            loaded.same_records(before),
            Self::inode_released(after, loaded, inode),
        ensures
            Self::inode_released(after, before, inode),
    {
        loaded.lemma_same_allocation(before);
        assert(loaded.inode_view(inode) == before.inode_view(inode));
        let record = before.inode_view(inode)->Some_0;
        assert forall|other: u64| other != record.index implies #[trigger] after.inode_live(other)
            == before.inode_live(other) by {
            assert(loaded.inode_live(other) == before.inode_live(other));
        }
        assert(loaded.inode_live(record.index) == before.inode_live(record.index));
    }

    /// What the removal of the file of inode `inode` from `before` gives,
    /// where the inode is allocated and its record
    /// describes a consistent file: success leaves `after` without the file.
    pub open spec fn removal<D: BlockDevice>(
        after: &Filesystem<D>,
        before: &Filesystem<D>,
        inode: u64,
        result: Result<(), Error>,
    ) -> bool {
        before.inode_live(inode) ==> (match before.inode_view(inode) {
            Some(record) => Self::spec_load(before, record).wf(before) ==> (match result {
                Ok(_) => Self::released(after, before, record),
                Err(e) => e is Io || (record.index != inode && (e is OutOfBounds || e
                    is DoubleRelease)),
            }),
            None => result matches Err(e) && (e is Io || e is InsufficientBytes),
        })
    }

    /// What a removal gives of a filesystem it gives of every filesystem
    /// with the same allocation that sees the same records.
    pub proof fn lemma_removal_stable<D: BlockDevice>(
        after: &Filesystem<D>,
        loaded: &Filesystem<D>,
        before: &Filesystem<D>,
        inode: u64,
        result: Result<(), Error>,
    )
        requires
            before.wf(),
            loaded.wf(),
            loaded.same_allocation(before),
            loaded.same_records(before),
            Self::removal(after, loaded, inode, result),
        ensures
            Self::removal(after, before, inode, result),
    {
        loaded.lemma_same_allocation(before);
        if before.inode_live(inode) {
            assert(loaded.inode_live(inode));
            assert(loaded.inode_view(inode) == before.inode_view(inode));
            if let Some(record) = before.inode_view(inode) {
                let described = Self::spec_load(before, record);
                assert(described == Self::spec_load(loaded, record));
                if described.wf(before) {
                    described.lemma_wf_stable(before, loaded);
                    if result is Ok {
                        assert forall|other: u64| #[trigger]
                            after.block_live(other) == (before.block_live(other)
                                && !described.owns(before, other)) by {
                            described.lemma_owned_anywhere(before, loaded, &described, other);
                            assert(loaded.block_live(other) == before.block_live(other));
                        }
                        assert forall|other: u64| other != record.index implies #[trigger]
                            after.inode_live(other) == before.inode_live(other) by {
                            assert(loaded.inode_live(other) == before.inode_live(other));
                        }
                        assert(loaded.inode_live(record.index) == before.inode_live(record.index));
                    }
                }
            }
        }
    }

    /// Remove file for given [Inode] index: every block of the file that
    /// the record of inode `inode` describes is released, and then the inode
    /// that the record names. `OutOfBounds`, with nothing changed, when the
    /// inode is not allocated.
    pub fn remove<D: BlockDevice>(fs: &mut Filesystem<D>, inode: u64) -> (result: Result<(), Error>)
        requires
            old(fs).wf(),
        ensures
            final(fs).wf(),
            Self::same_geometry(final(fs), old(fs)),
            !old(fs).inode_live(inode) ==> (result matches Err(e) && e is OutOfBounds)
                && final(fs).unchanged_from(old(fs)),
            Self::removal(final(fs), old(fs), inode, result),
            result is Ok ==> Self::inode_released(final(fs), old(fs), inode),
            final(fs).inodes_within(old(fs)),
            result is Ok ==> final(fs).superblock.inodes_free > old(fs).superblock.inodes_free,
    {
        let record = match fs.load_inode(inode) {
            Ok(record) => record,
            Err(e) => {
                proof {
                    fs.lemma_same_allocation(old(fs));
                }
                return Err(e);
            },
        };
        let ghost loaded = *fs;
        proof {
            loaded.lemma_same_allocation(old(fs));
        }
        let mut file = match Self::load(fs, record) {
            Ok(file) => file,
            Err(e) => {
                return Err(e);
            },
        };
        let ghost described = file;
        let ghost intact = described.wf(old(fs));
        proof {
            if intact {
                described.lemma_wf_stable(old(fs), &loaded);
            }
        }
        if let Err(e) = file.shrink(fs, 0) {
            proof {
                fs.lemma_same_inodes(old(fs));
            }
            return Err(e);
        }
        let ghost shrunk = *fs;
        proof {
            if intact {
                if described.size > 0 || described.block_count > 0 {
                    file.lemma_cut_facts(&shrunk, &described, &loaded);
                } else {
                    shrunk.lemma_same_allocation(&loaded);
                }
                assert forall|other: u64| #[trigger]
                    shrunk.block_live(other) == (old(fs).block_live(other) && !described.owns(
                        old(fs),
                        other,
                    )) by {
                    described.lemma_owned_anywhere(old(fs), &loaded, &described, other);
                    assert(shrunk.block_live(other) == (loaded.block_live(other)
                        && !described.owns_from(&loaded, 0, other)));
                }
                assert forall|other: u64| #[trigger]
                    shrunk.inode_live(other) == old(fs).inode_live(other) by {
                    assert(loaded.inode_live(other) == old(fs).inode_live(other));
                }
                if !(described.size > 0 || described.block_count > 0) {
                    shrunk.lemma_records_ignore_allocation(&loaded);
                }
                assert forall|other: u64| #[trigger] shrunk.block_view(other) == old(fs).block_view(
                    other,
                ) by {
                    assert(shrunk.block_view(other) == loaded.block_view(other));
                    assert(loaded.block_view(other) == old(fs).block_view(other));
                }
                assert forall|other: u64| #[trigger] shrunk.inode_view(other) == old(fs).inode_view(
                    other,
                ) by {
                    assert(shrunk.inode_view(other) == loaded.inode_view(other));
                    assert(loaded.inode_view(other) == old(fs).inode_view(other));
                }
                assert(shrunk.superblock.blocks_free == old(fs).superblock.blocks_free
                    + described.block_count);
            }
        }
        let released = fs.release_inode(record.index);
        proof {
            shrunk.lemma_live_bounded();
            shrunk.lemma_same_inodes(old(fs));
            assert(shrunk.inode_live(inode) == old(fs).inode_live(inode));
            if record.index >= shrunk.superblock.inode_count || !shrunk.inode_live(record.index) {
                fs.lemma_same_allocation(&shrunk);
            }
            assert forall|other: u64| #[trigger] fs.inode_live(other) implies old(fs).inode_live(
                other,
            ) by {
                if other != record.index {
                    assert(fs.inode_live(other) == shrunk.inode_live(other));
                }
            }
            if released is Ok {
                assert forall|other: u64| other != record.index implies #[trigger] fs.inode_live(
                    other,
                ) == old(fs).inode_live(other) by {
                    assert(shrunk.inode_live(other) == old(fs).inode_live(other));
                }
            }
            if released is Ok && intact {
                assert forall|other: u64| #[trigger] fs.block_view(other) == old(fs).block_view(
                    other,
                ) by {
                    assert(fs.block_view(other) == shrunk.block_view(other));
                }
                assert forall|other: u64| #[trigger] fs.inode_view(other) == old(fs).inode_view(
                    other,
                ) by {
                    assert(fs.inode_view(other) == shrunk.inode_view(other));
                }
            }
        }
        released
    }

    /// A block is owned from place 0 on exactly when it is owned, and files
    /// with the same chain in filesystems that see the chain alike own the
    /// same blocks.
    pub proof fn lemma_owned_anywhere<D: BlockDevice>(
        &self,
        fs: &Filesystem<D>,
        after: &Filesystem<D>,
        other: &Self,
        block: u64,
    )
        requires
            self.first_block == other.first_block,
            self.block_count == other.block_count,
            forall|place: nat|
                place <= self.block_count ==> #[trigger] self.block_at(after, place)
                    == self.block_at(fs, place),
        ensures
            other.owns_from(after, 0, block) == self.owns(fs, block),
    {
        if other.owns_from(after, 0, block) {
            let place = choose|place: nat|
                0 <= place < other.block_count && #[trigger] spec_block_at(
                    after,
                    other.first_block,
                    place,
                ) == block;
            assert(spec_block_at(fs, self.first_block, place) == block);
        }
        if self.owns(fs, block) {
            let place = choose|place: nat|
                place < self.block_count && #[trigger] spec_block_at(fs, self.first_block, place)
                    == block;
            assert(spec_block_at(after, other.first_block, place) == block);
        }
    }

    /// Whether the cache holds every block of the chain, so that reading the
    /// file asks nothing of the device.
    pub open spec fn cached<D: BlockDevice>(&self, fs: &Filesystem<D>) -> bool {
        forall|place: nat|
            place < self.block_count ==> fs.cache.blocks@.contains_key(
                #[trigger] self.block_at(fs, place),
            )
    }

    /// A chain that is cached stays cached in a filesystem that sees the
    /// same records and keeps what is cached.
    pub proof fn lemma_cached_kept<D: BlockDevice>(
        &self,
        before: &Filesystem<D>,
        after: &Filesystem<D>,
    )
        requires
            self.wf(before),
            after.wf(),
            after.same_allocation(before),
            after.same_records(before),
            after.keeps_cached(before),
        ensures
            self.cached(before) ==> self.cached(after),
    {
        self.lemma_wf_stable(before, after);
        if self.cached(before) {
            assert forall|place: nat| place < self.block_count implies after.cache.blocks@.contains_key(
                #[trigger] self.block_at(after, place),
            ) by {
                assert(self.block_at(after, place) == self.block_at(before, place));
            }
        }
    }

    /// A file persists across a mount: a file that is consistent with a
    /// filesystem whose superblock, bitmaps and cached records the device
    /// stores is consistent, with the same bytes, with a filesystem that is
    /// mounted from that device.
    pub proof fn lemma_persists<D: BlockDevice>(
        &self,
        flushed: &Filesystem<D>,
        mounted: &Filesystem<D>,
    )
        requires
            self.wf(flushed),
            flushed.allocation_stored(),
            flushed.shelved(),
            mounted.mounted_from(flushed.device.contents(), flushed.superblock.block_size),
        ensures
            self.wf(mounted),
            self.contents(mounted) == self.contents(flushed),
            forall|index: u64| #[trigger] mounted.inode_view(index) == flushed.inode_view(index),
    {
        mounted.lemma_mount_sees(flushed);
        self.lemma_wf_seen(flushed, mounted);
    }

    /// Whether the device is known to store every block of the chain that
    /// the cache holds.
    pub open spec fn shelved<D: BlockDevice>(&self, fs: &Filesystem<D>) -> bool {
        forall|place: nat|
            place < self.block_count ==> (fs.cache.blocks@.contains_key(
                #[trigger] self.block_at(fs, place),
            ) ==> fs.cache.blocks@[self.block_at(fs, place)].stored)
    }

    /// A file whose blocks are stored persists across a mount: a file that
    /// is consistent with a filesystem whose superblock and bitmaps the
    /// device stores, and whose cached blocks it is known to store, is
    /// consistent, with the same bytes, with a filesystem that is mounted
    /// from that device.
    pub proof fn lemma_persists_stored<D: BlockDevice>(
        &self,
        flushed: &Filesystem<D>,
        mounted: &Filesystem<D>,
    )
        requires
            self.wf(flushed),
            flushed.allocation_stored(),
            self.shelved(flushed),
            mounted.mounted_from(flushed.device.contents(), flushed.superblock.block_size),
        ensures
            self.wf(mounted),
            self.contents(mounted) == self.contents(flushed),
    {
        mounted.lemma_mount_sees_stored(flushed);
        reveal(RawByteFile::linked);
        assert forall|place: nat| place < self.block_count implies mounted.block_view(
            #[trigger] self.block_at(flushed, place),
        ) == flushed.block_view(self.block_at(flushed, place)) && mounted.block_live(
            self.block_at(flushed, place),
        ) by {
            assert(flushed.block_live(self.block_at(flushed, place)));
        }
        self.lemma_linked_stable(flushed, mounted);
        assert(self.contents(mounted) =~= self.contents(flushed));
    }

    /// What a forced flush wrote persists: a file that is consistent with a
    /// filesystem, and of whose blocks the cache holds none that is neither
    /// modified nor known to be stored, is consistent, with the same bytes,
    /// with a filesystem that is mounted from what a forced flush that
    /// succeeded has left on the device.
    pub proof fn lemma_flush_persists<D: BlockDevice>(
        &self,
        before: &Filesystem<D>,
        flushed: &Filesystem<D>,
        mounted: &Filesystem<D>,
    )
        requires
            self.wf(before),
            flushed.settled_from(before),
            flushed.keeps_lines(before),
            flushed.allocation_stored(),
            flushed.stores_written(before),
            forall|place: nat|
                place < self.block_count ==> (before.cache.blocks@.contains_key(
                    #[trigger] self.block_at(before, place),
                ) ==> before.cache.blocks@[self.block_at(before, place)].modified
                    || before.cache.blocks@[self.block_at(before, place)].stored),
            mounted.mounted_from(flushed.device.contents(), flushed.superblock.block_size),
        ensures
            self.wf(mounted),
            self.contents(mounted) == self.contents(before),
    {
        self.lemma_wf_stable(before, flushed);
        assert forall|place: nat| place < self.block_count implies (
        flushed.cache.blocks@.contains_key(#[trigger] self.block_at(flushed, place))
            ==> flushed.cache.blocks@[self.block_at(flushed, place)].stored) by {
            let block = self.block_at(before, place);
            assert(self.block_at(flushed, place) == block);
            if flushed.cache.blocks@.contains_key(block) {
                assert(before.cache.blocks@.contains_key(block));
            }
        }
        self.lemma_persists_stored(flushed, mounted);
    }

    /// A file with an intact chain has no more blocks than the filesystem.
    pub proof fn lemma_count_bounded<D: BlockDevice>(&self, fs: &Filesystem<D>)
        requires
            fs.wf(),
            self.linked(fs),
        ensures
            self.block_count <= fs.superblock.block_count,
            self.block_count < u64::MAX,
    {
        reveal(RawByteFile::linked);
        fs.lemma_live_bounded();
        if self.block_count > 0 {
            let chain = Seq::new(self.block_count as nat, |place: int| self.block_at(fs, place as nat));
            assert forall|left: int, right: int|
                0 <= left < chain.len() && 0 <= right < chain.len() && left != right implies chain[left]
                != chain[right] by {
                if left < right {
                    assert(self.block_at(fs, left as nat) != self.block_at(fs, right as nat));
                } else {
                    assert(self.block_at(fs, right as nat) != self.block_at(fs, left as nat));
                }
            }
            chain.unique_seq_to_set();
            assert forall|key: u64| chain.to_set().contains(key) implies key
                < fs.superblock.block_count by {
                let place = choose|place: int| 0 <= place < chain.len() && chain[place] == key;
                assert(fs.block_live(self.block_at(fs, place as nat)));
            }
            crate::filesystem::layout::lemma_bounded_keys(
                chain.to_set(),
                fs.superblock.block_count,
            );
        }
    }

    /// A consistent file can hold its size, and walking its chain from the
    /// first block passes exactly `block_count` blocks before the chain ends.
    pub proof fn lemma_chain_length<D: BlockDevice>(&self, fs: &Filesystem<D>)
        requires
            self.wf(fs),
        ensures
            self.block_count * Self::padded(fs) >= self.size,
            forall|place: nat|
                place < self.block_count ==> #[trigger] self.block_at(fs, place) != NULL_BLOCK,
            self.block_at(fs, self.block_count as nat) == NULL_BLOCK,
    {
        reveal(RawByteFile::linked);
        fs.lemma_live_bounded();
        assert forall|place: nat| place < self.block_count implies #[trigger] self.block_at(
            fs,
            place,
        ) != NULL_BLOCK by {
            assert(fs.block_live(self.block_at(fs, place)));
        }
        if self.block_count > 0 {
            let last = (self.block_count - 1) as nat;
            assert(self.block_at(fs, last) == self.last_block);
        }
    }

    /// A seek that succeeds leaves a consistent file consistent.
    pub proof fn lemma_seek_keeps_wf<D: BlockDevice>(&self, fs: &Filesystem<D>, moved: &Self)
        requires
            self.wf(fs),
            moved.same_chain(self),
            moved.cursor.placed(&self.cursor, moved.cursor.offset()),
            0 <= moved.cursor.offset() <= self.size,
        ensures
            moved.wf(fs),
            moved.contents(fs) == self.contents(fs),
    {
        self.lemma_same_chain(moved, fs, self, fs, 0, Seq::empty(), 0);
        moved.cursor.lemma_placed(&self.cursor, moved.cursor.offset());
        assert(moved.contents(fs) =~= self.contents(fs));
    }

    /// Bytes that were written are read back: writing `data` at offset
    /// `offset` of a file and then reading as many bytes from that offset
    /// gives `data`, and the seek to that offset succeeds.
    pub proof fn lemma_write_read_round_trip(contents: Seq<u8>, offset: u64, data: Seq<u8>)
        requires
            offset <= contents.len() <= u64::MAX,
            offset + data.len() <= u64::MAX,
        ensures
            spec_written(contents, offset as int, data).subrange(
                offset as int,
                offset + data.len(),
            ) == data,
            spec_seek_target(
                SeekFrom::Start(offset),
                spec_written(contents, offset as int, data).len() as u64,
                (offset + data.len()) as u64,
            ) == Some(offset),
            data.len() <= spec_written(contents, offset as int, data).len() - offset,
    {
        let written = spec_written(contents, offset as int, data);
        assert(written.subrange(offset as int, offset + data.len()) =~= data);
    }

    /// Extending and then shrinking to no more than the size before keeps
    /// the bytes: the first `kept` bytes of a file that was extended by
    /// `added` zero bytes are the first `kept` bytes of the file before.
    pub proof fn lemma_extend_shrink_keeps(contents: Seq<u8>, added: nat, kept: int)
        requires
            0 <= kept <= contents.len(),
        ensures
            (contents + zeros(added)).subrange(0, kept) == contents.subrange(0, kept),
            kept <= (contents + zeros(added)).len(),
    {
        assert((contents + zeros(added)).subrange(0, kept) =~= contents.subrange(0, kept));
    }

    /// Create zero-initialized file with specified capacity, with one block
    /// at least, and the cursor at the start.
    pub fn with_capacity<D: BlockDevice>(fs: &mut Filesystem<D>, capacity: u64) -> (result: Result<
        Self,
        Error,
    >)
        requires
            old(fs).wf(),
        ensures
            final(fs).wf(),
            Self::same_geometry(final(fs), old(fs)),
            final(fs).same_inodes(old(fs)),
            final(fs).superblock.blocks_free <= old(fs).superblock.blocks_free,
            result matches Err(e) && e is OutOfMemory ==> final(fs).spec_free_block() is None,
            result matches Err(e) && e is OutOfMemory ==> spec_count_after(
                0,
                capacity as int,
                Self::padded(old(fs)),
            ) > old(fs).superblock.blocks_free,
            result matches Ok(file) ==> file.sound(final(fs)),
            (match result {
                Ok(file) => {
                    &&& file.wf(final(fs))
                    &&& file.size == capacity
                    &&& file.block_count == spec_count_after(
                        0,
                        capacity as int,
                        Self::padded(old(fs)),
                    )
                    &&& file.cursor.offset() == 0
                    &&& file.contents(final(fs)) == zeros(capacity as nat)
                },
                Err(e) => e is Io || e is OutOfMemory,
            }),
    {
        let mut file = match Self::new(fs) {
            Ok(file) => file,
            Err(e) => {
                return Err(e);
            },
        };
        let ghost empty = file;
        if let Err(e) = file.extend(fs, capacity) {
            return Err(e);
        }
        proof {
            assert(empty.contents(old(fs)) + zeros(capacity as nat) =~= zeros(capacity as nat));
        }
        Ok(file)
    }

    /// A cursor at or beyond the last place of a chain whose offset is
    /// within the capacity of the chain is at the end of the capacity.
    pub proof fn lemma_boundary(offset: int, blocks: int, padded: int)
        requires
            0 <= offset <= blocks * padded,
            0 < padded,
            offset / padded >= blocks,
        ensures
            offset == blocks * padded,
            offset / padded < blocks + 1,
            offset <= (blocks + 1) * padded,
    {
        reveal(RawByteFile::linked);
        reveal(RawByteFile::extends);
        reveal(RawByteFile::overlaid);
        vstd::arithmetic::div_mod::lemma_fundamental_div_mod(offset, padded);
        vstd::arithmetic::div_mod::lemma_mod_pos_bound(offset, padded);
        assert(offset == blocks * padded && (blocks + 1) * padded == blocks * padded + padded)
            by (nonlinear_arith)
            requires
                0 <= offset <= blocks * padded,
                offset == padded * (offset / padded) + offset % padded,
                0 <= offset % padded < padded,
                offset / padded >= blocks,
                padded > 0,
        ;
        vstd::arithmetic::div_mod::lemma_fundamental_div_mod_converse(offset, padded, blocks, 0);
    }

    /// A file that extends `origin`, holds all of `data` overlaid from the
    /// cursor of `origin` on, and has the size that the write calls for, is
    /// consistent and holds the written contents.
    pub proof fn lemma_finished<D: BlockDevice>(
        &self,
        fs: &Filesystem<D>,
        origin: &Self,
        start: &Filesystem<D>,
        first: int,
        data: Seq<u8>,
    )
        requires
            fs.wf(),
            self.sound(fs),
            origin.wf(start),
            first == origin.cursor.offset(),
            self.extends(fs, origin, start),
            self.overlaid(fs, origin, start, first, data, data.len() as int),
            self.cursor.offset() == first + data.len(),
            self.size == (if origin.size >= first + data.len() {
                origin.size as int
            } else {
                first + data.len()
            }),
            first + data.len() <= self.block_count * Self::padded(fs),
        ensures
            self.wf(fs),
            self.contents(fs) == spec_written(origin.contents(start), first, data),
    {
        reveal(RawByteFile::linked);
        reveal(RawByteFile::extends);
        reveal(RawByteFile::overlaid);
        let padded = Self::padded(fs);
        assert(origin.size <= self.block_count * padded) by (nonlinear_arith)
            requires
                origin.size <= origin.block_count * padded,
                origin.block_count <= self.block_count,
                padded > 0,
        ;
        let wanted = spec_written(origin.contents(start), first, data);
        assert forall|offset: int| 0 <= offset < self.size implies self.contents(fs)[offset]
            == wanted[offset] by {
            assert(self.byte_at(fs, offset) == (if first <= offset < first + data.len() {
                data[offset - first]
            } else if offset < origin.block_count * Self::padded(start) {
                origin.byte_at(start, offset)
            } else {
                0u8
            }));
        }
        assert(self.contents(fs) =~= wanted);
    }

    /// A filesystem with the allocation of one that differs from `before` in
    /// one block differs from `before` in that block.
    pub proof fn lemma_allocation_but<D: BlockDevice>(
        after: &Filesystem<D>,
        changed: &Filesystem<D>,
        before: &Filesystem<D>,
        index: u64,
        live: bool,
    )
        requires
            changed.with_block(before, index, live),
            after.same_allocation(changed),
        ensures
            Self::allocation_but(after, before, index, live),
    {
        reveal(RawByteFile::linked);
        reveal(RawByteFile::extends);
        reveal(RawByteFile::overlaid);
        after.lemma_same_allocation(changed);
    }

    /// Bytes per block available for data
    pub fn bytes_per_block<D: BlockDevice>(&self, fs: &Filesystem<D>) -> (result: Result<
        usize,
        Error,
    >)
        requires
            fs.wf(),
        ensures
            result matches Ok(payload) && payload == Self::padded(fs),
    {
        Ok(bytes_per_block(fs.superblock.block_size) as usize)
    }

    /// Update [Inode]'s block pointers
    pub fn update_inode(&self, inode: &mut Inode)
        ensures
            *final(inode) == (Inode {
                first_block: self.first_block,
                last_block: self.last_block,
                ..*old(inode)
            }),
    {
        inode.first_block = self.first_block;
        inode.last_block = self.last_block;
    }
}

} // verus!
