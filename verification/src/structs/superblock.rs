//! Region layout computed from capacity and block size.

use vstd::prelude::*;
use vstd::bytes::{spec_u64_from_le_bytes, spec_u64_to_le_bytes, u64_from_le_bytes, u64_to_le_bytes,
    lemma_auto_spec_u64_to_from_le_bytes};
use crate::bytes::{spec_u16_from_le_bytes, spec_u16_to_le_bytes, spec_u32_from_le_bytes,
    spec_u32_to_le_bytes, u16_from_le_bytes, u16_to_le_bytes, u32_from_le_bytes, u32_to_le_bytes,
    lemma_auto_spec_u16_to_from_le_bytes, lemma_auto_spec_u32_to_from_le_bytes};
use vstd::slice::slice_subrange;
use crate::error::Error;
use crate::filesystem::device::{BlockDevice, overwritten};
use crate::math::{is_power_of_two, power_of_two, spec_align_up, lemma_align_up,
    lemma_align_up_monotone};
use crate::structs::{Superblock, DATA_PER_INODE, INODE_SIZE, MAGIC_SIGNATURE, SUPERBLOCK_SIZE};
use crate::structs::bitmap::{spec_size_in_bytes, size_in_bytes, lemma_size_in_bytes,
    lemma_size_in_bytes_monotone, MAX_COUNT};

verus! {

/// Largest capacity for which the layout arithmetic stays within 64 bits.
pub const MAX_CAPACITY: u64 = 0x4000_0000_0000_0000;

/// Bytes before the block region when the regions are sized for the largest
/// inode and block counts that `capacity` could hold.
pub open spec fn spec_overhead(capacity: int, block_size: int) -> int {
    let after_superblock = capacity - block_size - SUPERBLOCK_SIZE;
    let max_inodes = after_superblock / (DATA_PER_INODE as int);
    let max_blocks = (after_superblock - max_inodes * INODE_SIZE) / block_size;
    let bitmaps = spec_size_in_bytes(max_inodes as nat) + spec_size_in_bytes(max_blocks as nat);
    spec_align_up(block_size + SUPERBLOCK_SIZE + bitmaps + max_inodes * INODE_SIZE, block_size)
}

/// Bytes left for data blocks: the capacity rounded down to whole blocks, less the overhead.
pub open spec fn spec_usable_capacity(capacity: int, block_size: int) -> int {
    (capacity / block_size) * block_size - spec_overhead(capacity, block_size)
}

/// Capacities and block sizes for which a layout exists.
pub open spec fn formattable(capacity: u64, block_size: u32) -> bool {
    &&& is_power_of_two(block_size as nat)
    &&& block_size + SUPERBLOCK_SIZE <= capacity <= MAX_CAPACITY
    &&& spec_usable_capacity(capacity as int, block_size as int) >= 0
}

/// Whether a device of `capacity` bytes can be laid out in blocks of
/// `block_size` bytes.
pub fn can_format(capacity: u64, block_size: u32) -> (possible: bool)
    ensures
        possible == formattable(capacity, block_size),
{
    if !power_of_two(block_size as u64) {
        return false;
    }
    proof {
        reveal_with_fuel(is_power_of_two, 1);
    }
    let block_size_wide = block_size as u64;
    if capacity > MAX_CAPACITY || capacity < block_size_wide + SUPERBLOCK_SIZE {
        return false;
    }
    proof {
        lemma_overhead_bounds(capacity as int, block_size as int);
    }
    let after_superblock = capacity - block_size_wide - SUPERBLOCK_SIZE;
    let max_inodes = after_superblock / DATA_PER_INODE;
    let max_blocks = (after_superblock - max_inodes * INODE_SIZE) / block_size_wide;
    let bitmaps = size_in_bytes(max_inodes) + size_in_bytes(max_blocks);
    let before_blocks = Superblock::align_to_block_start(
        block_size_wide + SUPERBLOCK_SIZE + bitmaps + max_inodes * INODE_SIZE,
        block_size,
    );
    proof {
        let q = capacity as int / block_size as int;
        let b = block_size as int;
        assert(q * b <= capacity) by (nonlinear_arith)
            requires
                q == capacity as int / b,
                b > 0,
                capacity >= 0,
        ;
        assert(q * b >= 0) by (nonlinear_arith)
            requires
                q == capacity as int / b,
                b > 0,
                capacity >= 0,
        ;
    }
    let whole_blocks = (capacity / block_size_wide) * block_size_wide;
    whole_blocks >= before_blocks
}

impl Superblock {
    /// Start of the bitmap region: after the boot sector and the superblock.
    pub open spec fn spec_bitmap_region_start(&self) -> int {
        self.block_size + SUPERBLOCK_SIZE
    }

    /// Start of the inode region: the block boundary after both bitmaps.
    pub open spec fn spec_inode_region_start(&self) -> int {
        spec_align_up(
            self.spec_bitmap_region_start() + spec_size_in_bytes(self.inode_count as nat)
                + spec_size_in_bytes(self.block_count as nat),
            self.block_size as int,
        )
    }

    /// Start of the block region: the block boundary after the inode records.
    pub open spec fn spec_block_region_start(&self) -> int {
        spec_align_up(
            self.spec_inode_region_start() + INODE_SIZE * self.inode_count,
            self.block_size as int,
        )
    }

    /// End of the block region.
    pub open spec fn spec_block_region_end(&self) -> int {
        self.spec_block_region_start() + self.block_size * self.block_count
    }

    /// The geometry is usable: the block size is a power of two, and every
    /// region offset fits in 64 bits.
    pub open spec fn wf(&self) -> bool {
        &&& is_power_of_two(self.block_size as nat)
        &&& self.inode_count <= MAX_COUNT
        &&& self.block_count <= MAX_COUNT
        &&& self.spec_block_region_end() <= u64::MAX
    }

    /// The regions lie in order, each starting on or after the end of the one before.
    pub proof fn lemma_regions_ordered(&self)
        requires
            is_power_of_two(self.block_size as nat),
        ensures
            self.block_size >= 1,
            self.spec_bitmap_region_start() + spec_size_in_bytes(self.inode_count as nat)
                + spec_size_in_bytes(self.block_count as nat) <= self.spec_inode_region_start(),
            self.spec_inode_region_start() % (self.block_size as int) == 0,
            self.spec_inode_region_start() + INODE_SIZE * self.inode_count
                <= self.spec_block_region_start(),
            self.spec_block_region_start() % (self.block_size as int) == 0,
            self.spec_block_region_start() <= self.spec_block_region_end(),
    {
        reveal_with_fuel(is_power_of_two, 1);
        lemma_align_up(
            self.spec_bitmap_region_start() + spec_size_in_bytes(self.inode_count as nat)
                + spec_size_in_bytes(self.block_count as nat),
            self.block_size as int,
        );
        lemma_align_up(
            self.spec_inode_region_start() + INODE_SIZE * self.inode_count,
            self.block_size as int,
        );
        assert(self.block_size * self.block_count >= 0) by (nonlinear_arith);
    }

    /// Whether this is the superblock of a device of `capacity` bytes that
    /// was just formatted with blocks of `block_size` bytes.
    pub open spec fn formatted_for(&self, capacity: u64, block_size: u32) -> bool {
        let usable = spec_usable_capacity(capacity as int, block_size as int);
        &&& self.inode_count == usable / (DATA_PER_INODE as int)
        &&& self.inodes_free == self.inode_count
        &&& self.block_count == usable / (block_size as int)
        &&& self.blocks_free == self.block_count
        &&& self.block_size == block_size
        &&& self.magic == MAGIC_SIGNATURE
        &&& forall|at: int| 0 <= at < 20 ==> self.__padding_1[at] == 0
        &&& forall|at: int| 0 <= at < 966 ==> self.__padding_2[at] == 0
    }

    /// Lays out a device of `capacity` bytes in blocks of `block_size` bytes:
    /// one inode per `DATA_PER_INODE` usable bytes, and as many blocks as fit.
    /// All inodes and blocks start out free, and every region ends within the capacity.
    pub fn new(capacity: u64, block_size: u32) -> (superblock: Self)
        requires
            formattable(capacity, block_size),
        ensures
            superblock.formatted_for(capacity, block_size),
            superblock.block_size == block_size,
            superblock.magic == MAGIC_SIGNATURE,
            superblock.inode_count == spec_usable_capacity(capacity as int, block_size as int)
                / (DATA_PER_INODE as int),
            superblock.block_count == spec_usable_capacity(capacity as int, block_size as int)
                / (block_size as int),
            superblock.inodes_free == superblock.inode_count,
            superblock.blocks_free == superblock.block_count,
            superblock.wf(),
            superblock.spec_block_region_end() <= capacity + block_size,
            superblock.inode_count <= capacity,
            superblock.block_count <= capacity,
    {
        let usable = Self::usable_capacity(capacity, block_size);
        proof {
            reveal_with_fuel(is_power_of_two, 1);
        }
        let inode_count = usable / DATA_PER_INODE;
        let block_count = usable / (block_size as u64);
        let superblock = Self {
            inode_count,
            inodes_free: inode_count,
            block_count,
            blocks_free: block_count,
            block_size,
            __padding_1: [0; 20],
            magic: MAGIC_SIGNATURE,
            __padding_2: [0; 966],
        };
        proof {
            lemma_layout_fits(capacity as int, block_size as int, superblock);
        }
        superblock
    }

    /// Computes `spec_usable_capacity`, a whole number of blocks.
    pub fn usable_capacity(capacity: u64, block_size: u32) -> (usable: u64)
        requires
            formattable(capacity, block_size),
        ensures
            usable == spec_usable_capacity(capacity as int, block_size as int),
            usable % (block_size as u64) == 0,
            usable <= capacity,
    {
        proof {
            reveal_with_fuel(is_power_of_two, 1);
            lemma_overhead_bounds(capacity as int, block_size as int);
        }
        let block_size_wide = block_size as u64;
        let boot_sector = block_size_wide;
        let after_superblock = capacity - boot_sector - SUPERBLOCK_SIZE;
        let max_inodes = after_superblock / DATA_PER_INODE;
        let max_blocks = (after_superblock - max_inodes * INODE_SIZE) / block_size_wide;
        let bitmaps = size_in_bytes(max_inodes) + size_in_bytes(max_blocks);
        let before_blocks = Self::align_to_block_start(
            boot_sector + SUPERBLOCK_SIZE + bitmaps + max_inodes * INODE_SIZE,
            block_size,
        );
        proof {
            let q = capacity as int / block_size as int;
            let b = block_size as int;
            let o = before_blocks as int;
            let k = o / b;
            vstd::arithmetic::div_mod::lemma_fundamental_div_mod(o, b);
            assert(o == b * k);
            assert(q * b - o == (q - k) * b) by (nonlinear_arith)
                requires
                    o == b * k,
            ;
            vstd::arithmetic::div_mod::lemma_mod_multiples_basic(q - k, b);
            assert(q * b <= capacity) by (nonlinear_arith)
                requires
                    q == capacity as int / b,
                    b > 0,
                    capacity >= 0,
            ;
        }
        let whole_blocks = (capacity / block_size_wide) * block_size_wide;
        whole_blocks - before_blocks
    }

    /// Rounds `position` up to a multiple of `block_size`.
    pub fn align_to_block_start(position: u64, block_size: u32) -> (aligned: u64)
        requires
            block_size > 0,
            spec_align_up(position as int, block_size as int) <= u64::MAX,
        ensures
            aligned == spec_align_up(position as int, block_size as int),
            aligned % (block_size as u64) == 0,
            position <= aligned < position + block_size,
    {
        proof {
            lemma_align_up(position as int, block_size as int);
        }
        let block_size_wide = block_size as u64;
        if position % block_size_wide == 0 {
            position
        } else {
            let padding = block_size_wide - (position % block_size_wide);
            position + padding
        }
    }

    /// Rounds `position` up to a multiple of this superblock's block size.
    pub fn align(&self, position: u64) -> (aligned: u64)
        requires
            self.block_size > 0,
            spec_align_up(position as int, self.block_size as int) <= u64::MAX,
        ensures
            aligned == spec_align_up(position as int, self.block_size as int),
            aligned % (self.block_size as u64) == 0,
            position <= aligned < position + self.block_size,
    {
        Self::align_to_block_start(position, self.block_size)
    }

    /// Offset of the first bitmap byte.
    pub fn bitmap_region_start(&self) -> (start: u64)
        ensures
            start == self.spec_bitmap_region_start(),
    {
        let boot_sector = self.block_size as u64;
        boot_sector + SUPERBLOCK_SIZE
    }

    /// Offset of the first inode record.
    pub fn inode_region_start(&self) -> (start: u64)
        requires
            self.wf(),
        ensures
            start == self.spec_inode_region_start(),
    {
        proof {
            self.lemma_regions_ordered();
            assert(INODE_SIZE * self.inode_count >= 0);
        }
        let byte = self.bitmap_region_start() + size_in_bytes(self.inode_count) + size_in_bytes(
            self.block_count,
        );
        Self::align_to_block_start(byte, self.block_size)
    }

    /// Offset of the first data block.
    pub fn block_region_start(&self) -> (start: u64)
        requires
            self.wf(),
        ensures
            start == self.spec_block_region_start(),
    {
        proof {
            self.lemma_regions_ordered();
        }
        let byte = self.inode_region_start() + INODE_SIZE * self.inode_count;
        Self::align_to_block_start(byte, self.block_size)
    }

    /// Offset one past the last data block.
    pub fn block_region_end(&self) -> (end: u64)
        requires
            self.wf(),
        ensures
            end == self.spec_block_region_end(),
    {
        proof {
            self.lemma_regions_ordered();
            assert(self.block_size * self.block_count >= 0) by (nonlinear_arith);
        }
        self.block_region_start() + (self.block_size as u64) * self.block_count
    }

    /// Offset of inode record `index` when it lies inside the inode region.
    pub open spec fn spec_inode_position(&self, index: u64) -> Option<int> {
        let position = self.spec_inode_region_start() + index * INODE_SIZE;
        if position < self.spec_block_region_start() {
            Some(position)
        } else {
            None
        }
    }

    /// Offset of block `index` when it lies inside the block region.
    pub open spec fn spec_block_position(&self, index: u64) -> Option<int> {
        let position = self.spec_block_region_start() + index * self.block_size;
        if position < self.spec_block_region_end() {
            Some(position)
        } else {
            None
        }
    }

    /// Absolute offset of inode record `index`; `OutOfBounds` when the offset
    /// is not before the block region.
    pub fn inode_position(&self, index: u64) -> (result: Result<u64, Error>)
        requires
            self.wf(),
        ensures
            match result {
                Ok(position) => self.spec_inode_position(index) == Some(position as int),
                Err(e) => e is OutOfBounds && self.spec_inode_position(index) is None,
            },
    {
        proof {
            self.lemma_regions_ordered();
        }
        let start = self.inode_region_start();
        let limit = self.block_region_start();
        if index >= (limit - start) / INODE_SIZE + 1 {
            return Err(Error::OutOfBounds);
        }
        let position = start + index * INODE_SIZE;
        if position < limit {
            Ok(position)
        } else {
            Err(Error::OutOfBounds)
        }
    }

    /// Absolute offset of block `index`; `OutOfBounds` when the offset is not
    /// before the end of the block region.
    pub fn block_position(&self, index: u64) -> (result: Result<u64, Error>)
        requires
            self.wf(),
        ensures
            match result {
                Ok(position) => self.spec_block_position(index) == Some(position as int),
                Err(e) => e is OutOfBounds && self.spec_block_position(index) is None,
            },
            result is Ok <==> index < self.block_count,
    {
        proof {
            self.lemma_regions_ordered();
            self.lemma_block_position(index);
        }
        if index >= self.block_count {
            return Err(Error::OutOfBounds);
        }
        let start = self.block_region_start();
        proof {
            assert(index * self.block_size <= self.block_count * self.block_size)
                by (nonlinear_arith)
                requires
                    index < self.block_count,
            ;
        }
        Ok(start + index * (self.block_size as u64))
    }

    /// The superblock as stored: the counts, the block size, 20 unused bytes,
    /// the magic signature at offset 0x38, and 966 unused bytes.
    pub open spec fn spec_bytes(&self) -> Seq<u8> {
        spec_u64_to_le_bytes(self.inode_count) + spec_u64_to_le_bytes(self.inodes_free)
            + spec_u64_to_le_bytes(self.block_count) + spec_u64_to_le_bytes(self.blocks_free)
            + spec_u32_to_le_bytes(self.block_size) + self.__padding_1@ + spec_u16_to_le_bytes(
            self.magic,
        ) + self.__padding_2@
    }

    /// Whether `self` is the superblock that `bytes` store.
    pub open spec fn stored_as(&self, bytes: Seq<u8>) -> bool {
        &&& bytes.len() >= SUPERBLOCK_SIZE
        &&& self.inode_count == spec_u64_from_le_bytes(bytes.subrange(0, 8))
        &&& self.inodes_free == spec_u64_from_le_bytes(bytes.subrange(8, 16))
        &&& self.block_count == spec_u64_from_le_bytes(bytes.subrange(16, 24))
        &&& self.blocks_free == spec_u64_from_le_bytes(bytes.subrange(24, 32))
        &&& self.block_size == spec_u32_from_le_bytes(bytes.subrange(32, 36))
        &&& self.__padding_1@ == bytes.subrange(36, 56)
        &&& self.magic == spec_u16_from_le_bytes(bytes.subrange(56, 58))
        &&& self.__padding_2@ == bytes.subrange(58, 1024)
    }

    /// A superblock is stored in 1024 bytes, and those bytes store it and no other.
    pub proof fn lemma_round_trip(&self, other: &Superblock)
        ensures
            self.spec_bytes().len() == SUPERBLOCK_SIZE,
            self.stored_as(self.spec_bytes()),
            other.stored_as(self.spec_bytes()) ==> *other == *self,
    {
        lemma_auto_spec_u64_to_from_le_bytes();
        lemma_auto_spec_u32_to_from_le_bytes();
        lemma_auto_spec_u16_to_from_le_bytes();
        let bytes = self.spec_bytes();
        assert(self.__padding_1@.len() == 20);
        assert(self.__padding_2@.len() == 966);
        assert(bytes.len() == 1024);
        assert(bytes.subrange(0, 8) =~= spec_u64_to_le_bytes(self.inode_count));
        assert(bytes.subrange(8, 16) =~= spec_u64_to_le_bytes(self.inodes_free));
        assert(bytes.subrange(16, 24) =~= spec_u64_to_le_bytes(self.block_count));
        assert(bytes.subrange(24, 32) =~= spec_u64_to_le_bytes(self.blocks_free));
        assert(bytes.subrange(32, 36) =~= spec_u32_to_le_bytes(self.block_size));
        assert(bytes.subrange(36, 56) =~= self.__padding_1@);
        assert(bytes.subrange(56, 58) =~= spec_u16_to_le_bytes(self.magic));
        assert(bytes.subrange(58, 1024) =~= self.__padding_2@);
        if other.stored_as(bytes) {
            assert(other.__padding_1 =~= self.__padding_1);
            assert(other.__padding_2 =~= self.__padding_2);
        }
    }

    /// Serializes the superblock.
    pub fn to_bytes(&self) -> (bytes: Vec<u8>)
        ensures
            bytes@ == self.spec_bytes(),
            bytes@.len() == SUPERBLOCK_SIZE,
    {
        proof {
            self.lemma_round_trip(self);
        }
        let mut bytes: Vec<u8> = Vec::new();
        bytes.extend_from_slice(u64_to_le_bytes(self.inode_count).as_slice());
        bytes.extend_from_slice(u64_to_le_bytes(self.inodes_free).as_slice());
        bytes.extend_from_slice(u64_to_le_bytes(self.block_count).as_slice());
        bytes.extend_from_slice(u64_to_le_bytes(self.blocks_free).as_slice());
        bytes.extend_from_slice(u32_to_le_bytes(self.block_size).as_slice());
        bytes.extend_from_slice(self.__padding_1.as_slice());
        bytes.extend_from_slice(u16_to_le_bytes(self.magic).as_slice());
        bytes.extend_from_slice(self.__padding_2.as_slice());
        bytes
    }

    /// Deserializes a superblock; `InsufficientBytes` when fewer than 1024
    /// bytes are given.
    pub fn from_bytes(bytes: &[u8]) -> (result: Result<Superblock, Error>)
        ensures
            match result {
                Ok(superblock) => superblock.stored_as(bytes@),
                Err(e) => e is InsufficientBytes && bytes@.len() < SUPERBLOCK_SIZE,
            },
    {
        if bytes.len() < 1024 {
            return Err(Error::InsufficientBytes);
        }
        let mut padding_1 = [0u8; 20];
        let mut copied: usize = 0;
        while copied < 20
            invariant
                copied <= 20,
                bytes@.len() >= 1024,
                forall|at: int| 0 <= at < copied ==> padding_1@[at] == bytes@[36 + at],
            decreases 20 - copied,
        {
            padding_1[copied] = bytes[36 + copied];
            copied += 1;
        }
        let mut padding_2 = [0u8; 966];
        let mut copied: usize = 0;
        while copied < 966
            invariant
                copied <= 966,
                bytes@.len() >= 1024,
                forall|at: int| 0 <= at < copied ==> padding_2@[at] == bytes@[58 + at],
            decreases 966 - copied,
        {
            padding_2[copied] = bytes[58 + copied];
            copied += 1;
        }
        assert(padding_1@ =~= bytes@.subrange(36, 56));
        assert(padding_2@ =~= bytes@.subrange(58, 1024));
        Ok(
            Superblock {
                inode_count: u64_from_le_bytes(slice_subrange(bytes, 0, 8)),
                inodes_free: u64_from_le_bytes(slice_subrange(bytes, 8, 16)),
                block_count: u64_from_le_bytes(slice_subrange(bytes, 16, 24)),
                blocks_free: u64_from_le_bytes(slice_subrange(bytes, 24, 32)),
                block_size: u32_from_le_bytes(slice_subrange(bytes, 32, 36)),
                __padding_1: padding_1,
                magic: u16_from_le_bytes(slice_subrange(bytes, 56, 58)),
                __padding_2: padding_2,
            },
        )
    }

    /// Reads the superblock of a device formatted with blocks of `block_size` bytes.
    pub fn load<D: BlockDevice>(block_device: &mut D, block_size: u32) -> (result: Result<
        Superblock,
        Error,
    >)
        ensures
            final(block_device).contents() == old(block_device).contents(),
            match result {
                Ok(superblock) => {
                    &&& block_size + SUPERBLOCK_SIZE <= old(block_device).contents().len()
                    &&& superblock.stored_as(
                        old(block_device).contents().subrange(
                            block_size as int,
                            block_size + SUPERBLOCK_SIZE,
                        ),
                    )
                },
                Err(e) => e is Io,
            },
    {
        let position = block_size as u64;
        match block_device.read_exact_at(position, 1024) {
            Ok(bytes) => {
                let decoded = Self::from_bytes(bytes.as_slice());
                match decoded {
                    Ok(superblock) => Ok(superblock),
                    Err(e) => {
                        assert(false);
                        Err(e)
                    },
                }
            },
            Err(e) => Err(Error::Io(e)),
        }
    }

    /// Writes the superblock after the boot sector.
    pub fn flush<D: BlockDevice>(&self, block_device: &mut D) -> (result: Result<(), Error>)
        ensures
            final(block_device).contents().len() == old(block_device).contents().len(),
            forall|at: int|
                0 <= at < old(block_device).contents().len() && !(self.block_size <= at
                    < self.block_size + SUPERBLOCK_SIZE) ==> final(block_device).contents()[at]
                    == old(block_device).contents()[at],
            match result {
                Ok(_) => self.block_size + SUPERBLOCK_SIZE <= old(block_device).contents().len()
                    && final(block_device).contents() == overwritten(
                    old(block_device).contents(),
                    self.block_size as int,
                    self.spec_bytes(),
                ),
                Err(e) => e is Io,
            },
    {
        let position = self.block_size as u64;
        let bytes = self.to_bytes();
        match block_device.write_all_at(position, bytes.as_slice()) {
            Ok(_) => Ok(()),
            Err(e) => Err(Error::Io(e)),
        }
    }

    /// A block has a position exactly when its index is below the block count,
    /// and then the whole block lies inside the block region.
    pub proof fn lemma_block_position(&self, index: u64)
        requires
            is_power_of_two(self.block_size as nat),
        ensures
            self.spec_block_position(index) is Some <==> index < self.block_count,
            index < self.block_count ==> self.spec_block_position(index).unwrap()
                + self.block_size <= self.spec_block_region_end(),
    {
        reveal_with_fuel(is_power_of_two, 1);
        let b = self.block_size as int;
        let n = self.block_count as int;
        let i = index as int;
        assert(i < n ==> i * b + b <= n * b) by (nonlinear_arith)
            requires
                b > 0,
        ;
        assert(i >= n ==> i * b >= n * b) by (nonlinear_arith)
            requires
                b > 0,
        ;
        assert(b * n == n * b) by (nonlinear_arith);
    }
}

/// The overhead is a whole number of blocks and is computed without overflow.
pub proof fn lemma_overhead_bounds(capacity: int, block_size: int)
    requires
        block_size >= 1,
        block_size <= u32::MAX,
        block_size + SUPERBLOCK_SIZE <= capacity <= MAX_CAPACITY,
    ensures
        spec_overhead(capacity, block_size) % block_size == 0,
        0 <= spec_overhead(capacity, block_size) <= u64::MAX,
        ({
            let after_superblock = capacity - block_size - SUPERBLOCK_SIZE;
            let max_inodes = after_superblock / (DATA_PER_INODE as int);
            let max_blocks = (after_superblock - max_inodes * INODE_SIZE) / block_size;
            &&& 0 <= max_inodes <= MAX_COUNT
            &&& 0 <= max_blocks <= MAX_COUNT
            &&& max_inodes * INODE_SIZE <= after_superblock
        }),
{
    let after_superblock = capacity - block_size - SUPERBLOCK_SIZE;
    let max_inodes = after_superblock / (DATA_PER_INODE as int);
    let rest = after_superblock - max_inodes * INODE_SIZE;
    let max_blocks = rest / block_size;
    assert(max_blocks <= rest && max_blocks >= 0) by (nonlinear_arith)
        requires
            max_blocks == rest / block_size,
            block_size >= 1,
            rest >= 0,
    ;
    lemma_size_in_bytes(max_inodes as nat);
    lemma_size_in_bytes(max_blocks as nat);
    let bitmaps = spec_size_in_bytes(max_inodes as nat) + spec_size_in_bytes(max_blocks as nat);
    lemma_align_up(block_size + SUPERBLOCK_SIZE + bitmaps + max_inodes * INODE_SIZE, block_size);
}

/// A layout sized from the usable capacity ends less than one block past the
/// capacity: the inode region is aligned at its start as well as at its end,
/// which the sizing does not count.
pub proof fn lemma_layout_fits(capacity: int, block_size: int, superblock: Superblock)
    requires
        formattable(capacity as u64, block_size as u32),
        0 <= capacity <= u64::MAX,
        0 <= block_size <= u32::MAX,
        superblock.block_size == block_size,
        superblock.inode_count == spec_usable_capacity(capacity, block_size) / (
        DATA_PER_INODE as int),
        superblock.block_count == spec_usable_capacity(capacity, block_size) / block_size,
    ensures
        superblock.wf(),
        superblock.spec_block_region_end() <= capacity + block_size,
        superblock.inode_count <= capacity,
        superblock.block_count <= capacity,
{
    reveal_with_fuel(is_power_of_two, 1);
    lemma_overhead_bounds(capacity, block_size);
    let usable = spec_usable_capacity(capacity, block_size);
    let overhead = spec_overhead(capacity, block_size);
    let after_superblock = capacity - block_size - SUPERBLOCK_SIZE;
    let max_inodes = after_superblock / (DATA_PER_INODE as int);
    let rest = after_superblock - max_inodes * INODE_SIZE;
    let max_blocks = rest / block_size;
    let bitmaps = spec_size_in_bytes(max_inodes as nat) + spec_size_in_bytes(max_blocks as nat);
    let whole = (capacity / block_size) * block_size;
    assert(whole <= capacity) by (nonlinear_arith)
        requires
            whole == (capacity / block_size) * block_size,
            block_size > 0,
            capacity >= 0,
    ;
    lemma_align_up(block_size + SUPERBLOCK_SIZE + bitmaps + max_inodes * INODE_SIZE, block_size);
    lemma_size_in_bytes(max_inodes as nat);
    lemma_size_in_bytes(max_blocks as nat);
    // The counts derived from the usable capacity stay below the sizing counts.
    assert(usable <= rest);
    assert(usable <= after_superblock);
    let inodes = superblock.inode_count as int;
    let blocks = superblock.block_count as int;
    assert(inodes <= max_inodes) by (nonlinear_arith)
        requires
            inodes == usable / 4096,
            max_inodes == after_superblock / 4096,
            0 <= usable <= after_superblock,
    ;
    assert(blocks <= max_blocks) by (nonlinear_arith)
        requires
            blocks == usable / block_size,
            max_blocks == rest / block_size,
            0 <= usable <= rest,
            block_size > 0,
    {
        vstd::arithmetic::div_mod::lemma_div_is_ordered(usable, rest, block_size);
    }
    assert(blocks * block_size <= usable && blocks <= usable) by (nonlinear_arith)
        requires
            blocks == usable / block_size,
            block_size > 0,
            usable >= 0,
    ;
    lemma_size_in_bytes_monotone(inodes as nat, max_inodes as nat);
    lemma_size_in_bytes_monotone(blocks as nat, max_blocks as nat);
    let raw = superblock.spec_bitmap_region_start() + spec_size_in_bytes(inodes as nat)
        + spec_size_in_bytes(blocks as nat);
    let sized = block_size + SUPERBLOCK_SIZE + bitmaps + max_inodes * INODE_SIZE;
    lemma_align_shift(raw, INODE_SIZE * inodes, block_size);
    lemma_align_up_monotone(raw + INODE_SIZE * inodes, sized, block_size);
    assert(superblock.spec_block_region_start() <= overhead + block_size);
    assert(block_size * blocks == blocks * block_size) by (nonlinear_arith);
}

/// Aligning, adding and aligning again never overtakes aligning the sum.
pub proof fn lemma_align_shift(position: int, extra: int, block_size: int)
    requires
        0 <= position,
        0 <= extra,
        0 < block_size,
    ensures
        spec_align_up(spec_align_up(position, block_size) + extra, block_size) <= spec_align_up(
            position + extra,
            block_size,
        ) + block_size,
{
    lemma_align_up(position, block_size);
    lemma_align_up(position + extra, block_size);
    lemma_align_up(position + extra + block_size, block_size);
    lemma_align_up_monotone(
        spec_align_up(position, block_size) + extra,
        position + extra + block_size,
        block_size,
    );
    let sum = position + extra;
    assert((sum + block_size) % block_size == sum % block_size) by (nonlinear_arith)
        requires
            block_size > 0,
    {
        vstd::arithmetic::div_mod::lemma_mod_add_multiples_vanish(sum, block_size);
    }
}

} // verus!
