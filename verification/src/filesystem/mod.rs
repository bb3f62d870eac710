//! The allocator and cache orchestrator that owns the device.

pub mod bridge;
pub mod cache;
pub mod device;
pub mod layout;

use vstd::prelude::*;
use crate::error::Error;
use crate::filesystem::cache::{Cache, CacheLine, LRU_MAX_ENTRIES, keys_of};
use crate::filesystem::device::{BlockDevice, overwritten};
use crate::filesystem::layout::{changed_within, lemma_block_write,
    lemma_head_write, lemma_inode_position, lemma_inode_write};
use crate::filetypes::helpers::{empty_block, spec_empty_block};
use crate::math::is_power_of_two;
use crate::structs::{Bitmap, Block, Inode, Superblock, INODE_SIZE, MAGIC_OFFSET, MAGIC_SIGNATURE,
    SUPERBLOCK_SIZE};
use crate::structs::bitmap::{spec_set_bits, spec_size_in_bytes, lemma_size_in_bytes,
    size_in_bytes, MAX_COUNT};
use crate::bytes::{spec_u16_from_le_bytes, u16_from_le_bytes};
use crate::structs::superblock::formattable;

verus! {

/// `std::time::Instant`, carried through as an opaque value.
#[verifier::external_type_specification]
#[verifier::external_body]
pub struct ExInstant(std::time::Instant);

/// Seconds that modifications may wait in the cache before they are written.
pub const DIRTY_PAGE_MAX_SECONDS: u64 = 1;

/// `DIRTY_PAGE_MAX_SECONDS` in milliseconds.
pub const DIRTY_PAGE_MAX_MILLIS: u64 = 1000;

/// Index of the root directory's inode.
pub const ROOT_INODE: u64 = 1;

/// Starts the clock that times write-back.
///
/// Calls `std::time::Instant::now`; nothing is claimed of the value.
#[verifier::external_body]
fn clock_start() -> std::time::Instant {
    std::time::Instant::now()
}

/// Whole milliseconds since the clock was started.
///
/// Calls `std::time::Instant::elapsed`; nothing is claimed of the value.
#[verifier::external_body]
fn clock_millis(start: &std::time::Instant) -> u64 {
    start.elapsed().as_millis() as u64
}

/// A mounted filesystem: geometry, occupancy bitmaps, device and cache.
pub struct Filesystem<D: BlockDevice> {
    pub superblock: Superblock,
    pub inodes: Bitmap<Inode>,
    pub blocks: Bitmap<Block>,
    pub device: D,
    pub cache: Cache,
    /// Clock reading at the last forced flush.
    pub last_flush: Option<u64>,
    pub clock: std::time::Instant,
}

/// A filesystem as its host sees it.
pub struct FuseFs<D: BlockDevice> {
    pub filesystem: Filesystem<D>,
}

/// Whether a flush is due at `now`: none was forced yet, or the last one is
/// at least `DIRTY_PAGE_MAX_MILLIS` old.
pub open spec fn spec_flush_due(last_flush: Option<u64>, now: u64) -> bool {
    match last_flush {
        Some(last) => !(now >= last && now - last < DIRTY_PAGE_MAX_MILLIS),
        None => true,
    }
}

/// Computes `spec_flush_due`.
pub fn flush_due(last_flush: Option<u64>, now: u64) -> (due: bool)
    ensures
        due == spec_flush_due(last_flush, now),
{
    match last_flush {
        Some(last) => !(now >= last && now - last < DIRTY_PAGE_MAX_MILLIS),
        None => true,
    }
}

/// Whether `contents` hold the magic signature of a filesystem with blocks of
/// `block_size` bytes.
pub open spec fn spec_magic_at(contents: Seq<u8>, block_size: u64) -> bool {
    &&& block_size + MAGIC_OFFSET + 2 <= contents.len()
    &&& spec_u16_from_le_bytes(
        contents.subrange(block_size + MAGIC_OFFSET, block_size + MAGIC_OFFSET + 2),
    ) == MAGIC_SIGNATURE
}

/// The block size with binary exponent `exponent`.
pub open spec fn spec_block_size(exponent: int) -> u64 {
    if exponent == 9 {
        512
    } else if exponent == 10 {
        1024
    } else if exponent == 11 {
        2048
    } else if exponent == 12 {
        4096
    } else {
        8192
    }
}

/// Whether `block_size` is one of 512, 1024, 2048, 4096 and 8192.
pub fn valid_block_size(block_size: u32) -> (valid: bool)
    ensures
        valid == (is_power_of_two(block_size as nat) && 512 <= block_size <= 8192),
{
    proof {
        reveal_with_fuel(is_power_of_two, 15);
    }
    block_size == 512 || block_size == 1024 || block_size == 2048 || block_size == 4096
        || block_size == 8192
}

/// Computes the end of the block region in 128 bits, so that geometries
/// whose regions do not fit in 64 bits can be told apart.
pub fn layout_end(superblock: &Superblock) -> (end: u128)
    requires
        512 <= superblock.block_size <= 8192,
        superblock.inode_count <= MAX_COUNT,
        superblock.block_count <= MAX_COUNT,
    ensures
        end == superblock.spec_block_region_end(),
{
    proof {
        lemma_size_in_bytes(superblock.inode_count as nat);
        lemma_size_in_bytes(superblock.block_count as nat);
        crate::math::lemma_next_power_of_two_bounded(superblock.inode_count as nat);
        crate::math::lemma_next_power_of_two_bounded(superblock.block_count as nat);
    }
    let block_size = superblock.block_size as u128;
    let bitmaps_end = block_size + SUPERBLOCK_SIZE as u128 + size_in_bytes(
        superblock.inode_count,
    ) as u128 + size_in_bytes(superblock.block_count) as u128;
    let inode_start = if bitmaps_end % block_size == 0 {
        bitmaps_end
    } else {
        bitmaps_end + (block_size - bitmaps_end % block_size)
    };
    let inodes_end = inode_start + 128 * (superblock.inode_count as u128);
    let block_start = if inodes_end % block_size == 0 {
        inodes_end
    } else {
        inodes_end + (block_size - inodes_end % block_size)
    };
    assert(superblock.block_size * superblock.block_count <= 8192 * 0x8000_0000_0000_0000)
        by (nonlinear_arith)
        requires
            superblock.block_size <= 8192,
            superblock.block_count <= 0x8000_0000_0000_0000,
    ;
    block_start + block_size * (superblock.block_count as u128)
}

impl<D: BlockDevice> Filesystem<D> {
    /// The geometry, the bitmaps and the cache fit together: the block size
    /// is a power of two from 512 to 8192, every region offset fits in 64
    /// bits, and the tables are consistent.
    pub open spec fn wf(&self) -> bool {
        &&& self.superblock.wf()
        &&& 512 <= self.superblock.block_size <= 8192
        &&& self.consistent()
    }

    /// The bitmaps cover the superblock's counts and lie at its positions,
    /// the free counts and the allocated indexes add up to the totals,
    /// every cache line holds a record of this filesystem, and the device
    /// stores every line that is marked as stored.
    pub closed spec fn consistent(&self) -> bool {
        &&& self.superblock.magic == MAGIC_SIGNATURE
        &&& self.inodes.wf()
        &&& self.inodes.count == self.superblock.inode_count
        &&& self.inodes.position == self.superblock.spec_bitmap_region_start()
        &&& self.blocks.wf()
        &&& self.blocks.count == self.superblock.block_count
        &&& self.blocks.position == self.superblock.spec_bitmap_region_start()
            + spec_size_in_bytes(self.superblock.inode_count as nat)
        &&& self.superblock.inodes_free + self.inodes.used() == self.superblock.inode_count
        &&& self.superblock.blocks_free + self.blocks.used() == self.superblock.block_count
        &&& self.cache.wf()
        &&& forall|key: u64| #[trigger]
            self.cache.inodes@.contains_key(key) ==> key < self.superblock.inode_count
        &&& forall|key: u64| #[trigger]
            self.cache.blocks@.contains_key(key) ==> key < self.superblock.block_count
                && self.cache.blocks@[key].value.data@.len() == self.superblock.block_size
        &&& self.backed()
    }

    /// Every cache line that is marked as stored is unmodified, and the
    /// device stores its record.
    pub closed spec fn backed(&self) -> bool {
        &&& forall|key: u64| #[trigger]
            self.cache.inodes@.contains_key(key) && self.cache.inodes@[key].stored
                ==> !self.cache.inodes@[key].modified && Inode::spec_stored(
                self.device.contents(),
                &self.superblock,
                key,
            ) == Some(self.cache.inodes@[key].value)
        &&& forall|key: u64| #[trigger]
            self.cache.blocks@.contains_key(key) && self.cache.blocks@[key].stored
                ==> !self.cache.blocks@[key].modified && Block::spec_stored(
                self.device.contents(),
                &self.superblock,
                key,
            ) == Some(self.cache.blocks@[key].value.data@)
    }

    /// Whether inode `index` is allocated.
    pub closed spec fn inode_live(&self, index: u64) -> bool {
        index < self.superblock.inode_count && self.inodes.bit(index as int)
    }

    /// Whether block `index` is allocated.
    pub closed spec fn block_live(&self, index: u64) -> bool {
        index < self.superblock.block_count && self.blocks.bit(index as int)
    }

    /// The bytes of block `index` as the filesystem sees them: the cached
    /// copy when there is one, else what the device stores.
    pub closed spec fn block_view(&self, index: u64) -> Seq<u8> {
        if self.cache.blocks@.contains_key(index) {
            self.cache.blocks@[index].value.data@
        } else {
            match Block::spec_stored(self.device.contents(), &self.superblock, index) {
                Some(data) => data,
                None => Seq::empty(),
            }
        }
    }

    /// The record of inode `index` as the filesystem sees it: the cached copy
    /// when there is one, else what the device stores.
    pub closed spec fn inode_view(&self, index: u64) -> Option<Inode> {
        if self.cache.inodes@.contains_key(index) {
            Some(self.cache.inodes@[index].value)
        } else {
            Inode::spec_stored(self.device.contents(), &self.superblock, index)
        }
    }

    /// Whether both filesystems see the same inode records and block bytes.
    pub open spec fn same_records(&self, other: &Self) -> bool {
        &&& forall|index: u64| #[trigger] self.block_view(index) == other.block_view(index)
        &&& forall|index: u64| #[trigger] self.inode_view(index) == other.inode_view(index)
    }

    /// Whether both filesystems have the same inodes allocated: the same
    /// inode bitmap and the same counts of inodes.
    pub open spec fn same_inodes(&self, other: &Self) -> bool {
        &&& self.superblock.inode_count == other.superblock.inode_count
        &&& self.superblock.inodes_free == other.superblock.inodes_free
        &&& self.inodes.bitfield@ == other.inodes.bitfield@
        &&& self.inodes.count == other.inodes.count
        &&& self.inodes.position == other.inodes.position
    }

    /// Filesystems with the same inodes allocated have the same allocated
    /// inode indexes and the same free ones.
    pub proof fn lemma_same_inodes(&self, other: &Self)
        requires
            self.same_inodes(other),
        ensures
            forall|index: u64| #[trigger] self.inode_live(index) == other.inode_live(index),
            self.spec_free_inode() == other.spec_free_inode(),
    {
        self.inodes.lemma_next_free_agree(&other.inodes, 0);
    }

    /// Whether `self` has the inodes of `before` allocated but inode
    /// `index`, which is allocated where `live` holds and free where not,
    /// with one free inode less or more.
    pub open spec fn inodes_but(&self, before: &Self, index: u64, live: bool) -> bool {
        &&& self.superblock.inode_count == before.superblock.inode_count
        &&& self.superblock.inodes_free == before.superblock.inodes_free + (if live {
            -1int
        } else {
            1int
        })
        &&& self.inode_live(index) == live
        &&& before.inode_live(index) != live
        &&& forall|other: u64|
            other != index ==> #[trigger] self.inode_live(other) == before.inode_live(other)
    }

    /// A filesystem with the same inodes allocated as one that differs from
    /// `before` by one inode differs from `before` by that inode.
    pub proof fn lemma_inodes_but(&self, changed: &Self, before: &Self, index: u64, live: bool)
        requires
            self.same_inodes(changed),
            changed.inodes_but(before, index, live),
        ensures
            self.inodes_but(before, index, live),
    {
        self.lemma_same_inodes(changed);
        assert forall|other: u64| other != index implies #[trigger] self.inode_live(other)
            == before.inode_live(other) by {
            assert(changed.inode_live(other) == before.inode_live(other));
        }
    }

    /// Whether every inode that `self` has allocated `before` has allocated
    /// too, of as many inodes, with no more of them free.
    pub open spec fn inodes_within(&self, before: &Self) -> bool {
        &&& self.superblock.inode_count == before.superblock.inode_count
        &&& self.superblock.inodes_free >= before.superblock.inodes_free
        &&& forall|index: u64| #[trigger] self.inode_live(index) ==> before.inode_live(index)
    }

    /// Releasing inodes one after the other releases inodes: a filesystem
    /// whose allocated inodes are among those of `middle`, whose are among
    /// those of `before`, has its allocated inodes among those of `before`.
    pub proof fn lemma_inodes_within(&self, middle: &Self, before: &Self)
        requires
            self.inodes_within(middle),
            middle.inodes_within(before),
        ensures
            self.inodes_within(before),
    {
        assert forall|index: u64| #[trigger] self.inode_live(index) implies before.inode_live(
            index,
        ) by {
            assert(middle.inode_live(index));
        }
    }

    /// A filesystem with the same inodes allocated, or with one released,
    /// has its allocated inodes among those before.
    pub proof fn lemma_inodes_fewer(&self, before: &Self)
        requires
            self.same_inodes(before) || exists|index: u64| #[trigger]
                self.inodes_but(before, index, false),
        ensures
            self.inodes_within(before),
    {
        if self.same_inodes(before) {
            self.lemma_same_inodes(before);
        } else {
            let released = choose|index: u64| #[trigger] self.inodes_but(before, index, false);
            assert forall|index: u64| #[trigger] self.inode_live(index) implies before.inode_live(
                index,
            ) by {
                if index != released {
                    assert(self.inode_live(index) == before.inode_live(index));
                }
            }
        }
    }

    /// Whether both filesystems have the same geometry and the same
    /// allocated inodes and blocks.
    pub open spec fn same_allocation(&self, other: &Self) -> bool {
        &&& self.superblock == other.superblock
        &&& self.inodes.bitfield@ == other.inodes.bitfield@
        &&& self.inodes.count == other.inodes.count
        &&& self.inodes.position == other.inodes.position
        &&& self.blocks.bitfield@ == other.blocks.bitfield@
        &&& self.blocks.count == other.blocks.count
        &&& self.blocks.position == other.blocks.position
    }

    /// Whether `self` is `start` after some of the cached records were
    /// written to the device: the cache holds the same records, and whatever
    /// is not cached is stored as before.
    pub closed spec fn written_back(&self, start: &Self) -> bool {
        &&& self.same_allocation(start)
        &&& self.last_flush == start.last_flush
        &&& self.cache.inodes@.dom() == start.cache.inodes@.dom()
        &&& self.cache.blocks@.dom() == start.cache.blocks@.dom()
        &&& forall|key: u64| #[trigger]
            self.cache.inodes@.contains_key(key) ==> self.cache.inodes@[key].value
                == start.cache.inodes@[key].value && (self.cache.inodes@[key].modified
                ==> start.cache.inodes@[key].modified)
        &&& forall|key: u64| #[trigger]
            self.cache.blocks@.contains_key(key) ==> self.cache.blocks@[key].value.data@
                == start.cache.blocks@[key].value.data@ && self.cache.blocks@[key].value.index
                == start.cache.blocks@[key].value.index && (self.cache.blocks@[key].modified
                ==> start.cache.blocks@[key].modified)
        &&& self.device.contents().len() == start.device.contents().len()
        &&& start.backed() ==> self.backed()
        &&& forall|index: u64|
            !self.cache.inodes@.contains_key(index) ==> #[trigger] Inode::spec_stored(
                self.device.contents(),
                &self.superblock,
                index,
            ) == Inode::spec_stored(start.device.contents(), &start.superblock, index)
        &&& forall|index: u64|
            !self.cache.blocks@.contains_key(index) ==> #[trigger] Block::spec_stored(
                self.device.contents(),
                &self.superblock,
                index,
            ) == Block::spec_stored(start.device.contents(), &start.superblock, index)
    }

    /// Writing cached records back changes no record that the filesystem sees.
    pub proof fn lemma_written_back(&self, start: &Self)
        requires
            self.written_back(start),
        ensures
            self.same_records(start),
            start.wf() ==> self.wf(),
    {
        assert forall|index: u64| #[trigger] self.block_view(index) == start.block_view(index) by {
            if !self.cache.blocks@.contains_key(index) {
                assert(Block::spec_stored(self.device.contents(), &self.superblock, index)
                    == Block::spec_stored(start.device.contents(), &start.superblock, index));
            }
        }
        assert forall|index: u64| #[trigger] self.inode_view(index) == start.inode_view(index) by {
            if !self.cache.inodes@.contains_key(index) {
                assert(Inode::spec_stored(self.device.contents(), &self.superblock, index)
                    == Inode::spec_stored(start.device.contents(), &start.superblock, index));
            }
        }
        if start.wf() {
            self.inodes.lemma_used_agree(&start.inodes, self.inodes.count as int);
            self.blocks.lemma_used_agree(&start.blocks, self.blocks.count as int);
            assert forall|index: int|
                self.inodes.count <= index < self.inodes.capacity() implies !#[trigger] self.inodes.bit(
                index,
            ) by {
                assert(!start.inodes.bit(index));
            }
            assert forall|index: int|
                self.blocks.count <= index < self.blocks.capacity() implies !#[trigger] self.blocks.bit(
                index,
            ) by {
                assert(!start.blocks.bit(index));
            }
            assert(self.inodes.wf());
            assert(self.blocks.wf());
            assert(self.cache.wf());
        }
    }

    /// Seeing the same records is transitive.
    pub proof fn lemma_seen_twice(&self, middle: &Self, start: &Self)
        requires
            self.same_records(middle),
            middle.same_records(start),
        ensures
            self.same_records(start),
    {
        assert forall|index: u64| #[trigger] self.block_view(index) == start.block_view(index) by {
            assert(middle.block_view(index) == start.block_view(index));
        }
        assert forall|index: u64| #[trigger] self.inode_view(index) == start.inode_view(index) by {
            assert(middle.inode_view(index) == start.inode_view(index));
        }
    }

    /// Pruning changes no record that the filesystem sees: a filesystem
    /// whose cache holds lines of the cache of `before`, and every line of it
    /// that is modified or not stored, is well formed and sees the records
    /// that `before` sees.
    pub proof fn lemma_pruned(&self, before: &Self)
        requires
            before.wf(),
            self.superblock == before.superblock,
            self.inodes == before.inodes,
            self.blocks == before.blocks,
            self.device == before.device,
            self.cache.wf(),
            forall|key: u64| #[trigger]
                self.cache.inodes@.contains_key(key) ==> before.cache.inodes@.contains_key(key)
                    && self.cache.inodes@[key] == before.cache.inodes@[key],
            forall|key: u64| #[trigger]
                self.cache.blocks@.contains_key(key) ==> before.cache.blocks@.contains_key(key)
                    && self.cache.blocks@[key] == before.cache.blocks@[key],
            forall|key: u64| #[trigger]
                before.cache.inodes@.contains_key(key) && !before.cache.inodes@[key].stored
                    ==> self.cache.inodes@.contains_key(key),
            forall|key: u64| #[trigger]
                before.cache.blocks@.contains_key(key) && !before.cache.blocks@[key].stored
                    ==> self.cache.blocks@.contains_key(key),
        ensures
            self.wf(),
            self.same_records(before),
    {
        assert forall|index: u64| #[trigger] self.inode_view(index) == before.inode_view(index) by {
            if before.cache.inodes@.contains_key(index) && !self.cache.inodes@.contains_key(index) {
                assert(before.cache.inodes@[index].stored);
            }
        }
        assert forall|index: u64| #[trigger] self.block_view(index) == before.block_view(index) by {
            if before.cache.blocks@.contains_key(index) && !self.cache.blocks@.contains_key(index) {
                assert(before.cache.blocks@[index].stored);
            }
        }
    }

    /// Writing back in two steps is writing back.
    pub proof fn lemma_written_back_twice(&self, middle: &Self, start: &Self)
        requires
            self.written_back(middle),
            middle.written_back(start),
        ensures
            self.written_back(start),
    {
        assert forall|index: u64|
            !self.cache.inodes@.contains_key(index) implies #[trigger] Inode::spec_stored(
            self.device.contents(),
            &self.superblock,
            index,
        ) == Inode::spec_stored(start.device.contents(), &start.superblock, index) by {
            assert(Inode::spec_stored(middle.device.contents(), &middle.superblock, index)
                == Inode::spec_stored(start.device.contents(), &start.superblock, index));
        }
        assert forall|index: u64|
            !self.cache.blocks@.contains_key(index) implies #[trigger] Block::spec_stored(
            self.device.contents(),
            &self.superblock,
            index,
        ) == Block::spec_stored(start.device.contents(), &start.superblock, index) by {
            assert(Block::spec_stored(middle.device.contents(), &middle.superblock, index)
                == Block::spec_stored(start.device.contents(), &start.superblock, index));
        }
    }

    /// Prunes the cache, then writes every modified line to the device and
    /// marks it unmodified: inodes first, then blocks.
    fn flush_cache(&mut self) -> (result: Result<(), Error>)
        requires
            old(self).wf(),
        ensures
            final(self).wf(),
            final(self).same_allocation(old(self)),
            final(self).last_flush == old(self).last_flush,
            final(self).device.contents().len() == old(self).device.contents().len(),
            final(self).same_records(old(self)),
            final(self).keeps_lines(old(self)),
            final(self).region_kept(old(self), 0, old(self).superblock.spec_inode_region_start()),
            match result {
                Ok(_) => final(self).cache.clean() && final(self).stores_modified(old(self)) && final(self).stores_written(old(self)),
                Err(e) => e is Io,
            },
    {
        let pruned = self.cache.prune();
        let ghost start = *self;
        assert(start.keeps_modified(old(self)));
        assert(start.keeps_lines(old(self)));
        proof {
            self.lemma_pruned(old(self));
            self.inodes.lemma_used_agree(&old(self).inodes, self.inodes.count as int);
            self.blocks.lemma_used_agree(&old(self).blocks, self.blocks.count as int);
        }
        let inode_keys = keys_of(&self.cache.inodes);
        let mut at: usize = 0;
        while at < inode_keys.len()
            invariant
                at <= inode_keys@.len(),
                inode_keys@.to_set() == start.cache.inodes@.dom(),
                start.wf(),
                self.wf(),
                self.written_back(&start),
                start.same_allocation(old(self)),
                start.last_flush == old(self).last_flush,
                start.device.contents().len() == old(self).device.contents().len(),
                start.same_records(old(self)),
                forall|before: int|
                    0 <= before < at ==> !(#[trigger] self.cache.inodes@[inode_keys@[before]]).modified,
                start.keeps_modified(old(self)),
                start.keeps_lines(old(self)),
                self.region_kept(old(self), 0, old(self).superblock.spec_inode_region_start()),
                inode_keys@.no_duplicates(),
                self.cache.blocks@ == start.cache.blocks@,
                forall|later: int|
                    at <= later < inode_keys@.len() ==> self.cache.inodes@[#[trigger] inode_keys@[later]]
                        == start.cache.inodes@[inode_keys@[later]],
                forall|earlier: int|
                    0 <= earlier < at ==> self.cache.inodes@[#[trigger] inode_keys@[earlier]].stored
                        == (start.cache.inodes@[inode_keys@[earlier]].stored
                        || start.cache.inodes@[inode_keys@[earlier]].modified),
                forall|before: int|
                    0 <= before < at && start.cache.inodes@[#[trigger] inode_keys@[before]].modified
                        ==> Inode::spec_stored(
                        self.device.contents(),
                        &self.superblock,
                        inode_keys@[before],
                    ) == Some(start.cache.inodes@[inode_keys@[before]].value),
            decreases inode_keys@.len() - at,
        {
            let key = inode_keys[at];
            assert(inode_keys@.to_set().contains(key));
            let line = match self.cache.inodes.get(&key) {
                Some(line) => CacheLine {
                    value: line.value,
                    modified: line.modified,
                    stored: line.stored,
                    atime: line.atime,
                },
                None => {
                    assert(false);
                    return Ok(());
                },
            };
            if line.modified {
                let ghost before = *self;
                proof {
                    lemma_inode_position(&self.superblock, key);
                }
                match line.value.flush(&mut self.device, &self.superblock) {
                    Ok(_) => {
                        self.cache.inodes.insert(
                            key,
                            CacheLine { value: line.value, modified: false, stored: true, atime: line.atime },
                        );
                    },
                    Err(e) => {
                        proof {
                            lemma_inode_write(
                                &self.superblock,
                                before.device.contents(),
                                self.device.contents(),
                                key,
                            );
                            assert(self.cache.inodes@.dom() =~= start.cache.inodes@.dom());
                            self.lemma_written_back(&start);
                            self.lemma_written_back(&start);
                            self.lemma_seen_twice(&start, old(self));
                            self.lemma_keeps_lines(&start, old(self));
                        }
                        return Err(e);
                    },
                }
                proof {
                    lemma_inode_write(
                        &self.superblock,
                        before.device.contents(),
                        self.device.contents(),
                        key,
                    );
                    assert(self.cache.inodes@.dom() =~= start.cache.inodes@.dom());
                    line.value.lemma_round_trip();
                    let position = self.superblock.spec_inode_position(key).unwrap();
                    assert(self.device.contents().subrange(position, position + INODE_SIZE)
                        =~= line.value.spec_bytes());
                    assert(self.backed()) by {
                        assert forall|held: u64| #[trigger]
                            self.cache.inodes@.contains_key(held)
                                && self.cache.inodes@[held].stored implies !self.cache.inodes@[held].modified
                            && Inode::spec_stored(self.device.contents(), &self.superblock, held)
                            == Some(self.cache.inodes@[held].value) by {
                            if held != key {
                                assert(self.cache.inodes@[held] == before.cache.inodes@[held]);
                                assert(Inode::spec_stored(
                                    self.device.contents(),
                                    &self.superblock,
                                    held,
                                ) == Inode::spec_stored(
                                    before.device.contents(),
                                    &self.superblock,
                                    held,
                                ));
                            }
                        }
                        assert forall|held: u64| #[trigger]
                            self.cache.blocks@.contains_key(held)
                                && self.cache.blocks@[held].stored implies !self.cache.blocks@[held].modified
                            && Block::spec_stored(self.device.contents(), &self.superblock, held)
                            == Some(self.cache.blocks@[held].value.data@) by {
                            assert(Block::spec_stored(
                                self.device.contents(),
                                &self.superblock,
                                held,
                            ) == Block::spec_stored(
                                before.device.contents(),
                                &self.superblock,
                                held,
                            ));
                        }
                    }
                    self.lemma_written_back(&start);
                    assert forall|earlier: int|
                        0 <= earlier < at && start.cache.inodes@[#[trigger] inode_keys@[earlier]].modified implies Inode::spec_stored(
                        self.device.contents(),
                        &self.superblock,
                        inode_keys@[earlier],
                    ) == Some(start.cache.inodes@[inode_keys@[earlier]].value) by {
                        assert(inode_keys@[earlier] != key);
                        assert(Inode::spec_stored(
                            self.device.contents(),
                            &self.superblock,
                            inode_keys@[earlier],
                        ) == Inode::spec_stored(
                            before.device.contents(),
                            &self.superblock,
                            inode_keys@[earlier],
                        ));
                    }
                }
            }
            at += 1;
        }
        proof {
            assert forall|key: u64| #[trigger]
                start.cache.inodes@.contains_key(key)
                    && start.cache.inodes@[key].modified implies Inode::spec_stored(
                self.device.contents(),
                &self.superblock,
                key,
            ) == Some(start.cache.inodes@[key].value) by {
                assert(inode_keys@.to_set().contains(key));
                let place = choose|place: int|
                    0 <= place < inode_keys@.len() && inode_keys@[place] == key;
                assert(start.cache.inodes@[inode_keys@[place]].modified);
            }
        }
        let ghost inode_done = self.cache.inodes@;
        proof {
            assert forall|key: u64| #[trigger]
                inode_done.contains_key(key) && start.cache.inodes@.contains_key(
                    key,
                ) implies inode_done[key].stored == (start.cache.inodes@[key].stored
                || start.cache.inodes@[key].modified) by {
                assert(inode_keys@.to_set().contains(key));
                let place = choose|place: int|
                    0 <= place < inode_keys@.len() && inode_keys@[place] == key;
                assert(self.cache.inodes@[inode_keys@[place]].stored == (
                start.cache.inodes@[inode_keys@[place]].stored
                    || start.cache.inodes@[inode_keys@[place]].modified));
            }
        }
        let block_keys = keys_of(&self.cache.blocks);
        let mut at: usize = 0;
        while at < block_keys.len()
            invariant
                at <= block_keys@.len(),
                block_keys@.to_set() == start.cache.blocks@.dom(),
                inode_keys@.to_set() == start.cache.inodes@.dom(),
                start.wf(),
                self.wf(),
                self.written_back(&start),
                start.same_allocation(old(self)),
                start.last_flush == old(self).last_flush,
                start.device.contents().len() == old(self).device.contents().len(),
                start.same_records(old(self)),
                forall|before: int|
                    0 <= before < inode_keys@.len() ==> !(
                    #[trigger] self.cache.inodes@[inode_keys@[before]]).modified,
                forall|before: int|
                    0 <= before < at ==> !(#[trigger] self.cache.blocks@[block_keys@[before]]).modified,
                start.keeps_modified(old(self)),
                start.keeps_lines(old(self)),
                self.region_kept(old(self), 0, old(self).superblock.spec_inode_region_start()),
                block_keys@.no_duplicates(),
                forall|key: u64| #[trigger]
                    start.cache.inodes@.contains_key(key) && start.cache.inodes@[key].modified
                        ==> Inode::spec_stored(self.device.contents(), &self.superblock, key)
                        == Some(start.cache.inodes@[key].value),
                forall|later: int|
                    at <= later < block_keys@.len() ==> self.cache.blocks@[#[trigger] block_keys@[later]]
                        == start.cache.blocks@[block_keys@[later]],
                forall|earlier: int|
                    0 <= earlier < at ==> self.cache.blocks@[#[trigger] block_keys@[earlier]].stored
                        == (start.cache.blocks@[block_keys@[earlier]].stored
                        || start.cache.blocks@[block_keys@[earlier]].modified),
                self.cache.inodes@ == inode_done,
                forall|key: u64| #[trigger]
                    inode_done.contains_key(key) && start.cache.inodes@.contains_key(key)
                        ==> inode_done[key].stored == (start.cache.inodes@[key].stored
                        || start.cache.inodes@[key].modified),
                forall|before: int|
                    0 <= before < at && start.cache.blocks@[#[trigger] block_keys@[before]].modified
                        ==> Block::spec_stored(
                        self.device.contents(),
                        &self.superblock,
                        block_keys@[before],
                    ) == Some(start.cache.blocks@[block_keys@[before]].value.data@),
            decreases block_keys@.len() - at,
        {
            let key = block_keys[at];
            assert(block_keys@.to_set().contains(key));
            let modified = match self.cache.blocks.get(&key) {
                Some(line) => line.modified,
                None => {
                    assert(false);
                    return Ok(());
                },
            };
            if modified {
                let ghost before = *self;
                let mut line = match self.cache.blocks.remove(&key) {
                    Some(line) => line,
                    None => {
                        assert(false);
                        return Ok(());
                    },
                };
                proof {
                    self.superblock.lemma_block_position(key);
                }
                let written = line.value.flush(&mut self.device, &self.superblock);
                if written.is_ok() {
                    line.modified = false;
                    line.stored = true;
                }
                self.cache.blocks.insert(key, line);
                proof {
                    lemma_block_write(
                        &self.superblock,
                        before.device.contents(),
                        self.device.contents(),
                        key,
                    );
                    assert(self.cache.blocks@.dom() =~= start.cache.blocks@.dom());
                    if written is Ok {
                        let position = self.superblock.spec_block_position(key).unwrap();
                        assert(self.device.contents().subrange(
                            position,
                            position + self.superblock.block_size,
                        ) =~= line.value.data@);
                    }
                    assert(self.backed()) by {
                        assert forall|held: u64| #[trigger]
                            self.cache.inodes@.contains_key(held)
                                && self.cache.inodes@[held].stored implies !self.cache.inodes@[held].modified
                            && Inode::spec_stored(self.device.contents(), &self.superblock, held)
                            == Some(self.cache.inodes@[held].value) by {
                            assert(Inode::spec_stored(
                                self.device.contents(),
                                &self.superblock,
                                held,
                            ) == Inode::spec_stored(
                                before.device.contents(),
                                &self.superblock,
                                held,
                            ));
                        }
                        assert forall|held: u64| #[trigger]
                            self.cache.blocks@.contains_key(held)
                                && self.cache.blocks@[held].stored implies !self.cache.blocks@[held].modified
                            && Block::spec_stored(self.device.contents(), &self.superblock, held)
                            == Some(self.cache.blocks@[held].value.data@) by {
                            if held != key {
                                assert(self.cache.blocks@[held] == before.cache.blocks@[held]);
                                assert(Block::spec_stored(
                                    self.device.contents(),
                                    &self.superblock,
                                    held,
                                ) == Block::spec_stored(
                                    before.device.contents(),
                                    &self.superblock,
                                    held,
                                ));
                            }
                        }
                    }
                    self.lemma_written_back(&start);
                    assert forall|inode: u64| #[trigger]
                        start.cache.inodes@.contains_key(inode)
                            && start.cache.inodes@[inode].modified implies Inode::spec_stored(
                        self.device.contents(),
                        &self.superblock,
                        inode,
                    ) == Some(start.cache.inodes@[inode].value) by {
                        assert(Inode::spec_stored(self.device.contents(), &self.superblock, inode)
                            == Inode::spec_stored(
                            before.device.contents(),
                            &self.superblock,
                            inode,
                        ));
                    }
                    if written is Ok {
                        let position = self.superblock.spec_block_position(key).unwrap();
                        assert(self.device.contents().subrange(
                            position,
                            position + self.superblock.block_size,
                        ) =~= line.value.data@);
                    }
                    assert forall|earlier: int|
                        0 <= earlier < at && start.cache.blocks@[#[trigger] block_keys@[earlier]].modified implies Block::spec_stored(
                        self.device.contents(),
                        &self.superblock,
                        block_keys@[earlier],
                    ) == Some(start.cache.blocks@[block_keys@[earlier]].value.data@) by {
                        assert(block_keys@[earlier] != key);
                        assert(Block::spec_stored(
                            self.device.contents(),
                            &self.superblock,
                            block_keys@[earlier],
                        ) == Block::spec_stored(
                            before.device.contents(),
                            &self.superblock,
                            block_keys@[earlier],
                        ));
                    }
                }
                if let Err(e) = written {
                    proof {
                        self.lemma_written_back(&start);
                        self.lemma_seen_twice(&start, old(self));
                            self.lemma_keeps_lines(&start, old(self));
                    }
                    return Err(e);
                }
            }
            at += 1;
        }
        proof {
            assert forall|key: u64| #[trigger] self.cache.inodes@.contains_key(key) implies !self.cache.inodes@[key].modified by {
                assert(inode_keys@.to_set().contains(key));
                let place = choose|place: int|
                    0 <= place < inode_keys@.len() && inode_keys@[place] == key;
                assert(!self.cache.inodes@[inode_keys@[place]].modified);
            }
            assert forall|key: u64| #[trigger] self.cache.blocks@.contains_key(key) implies !self.cache.blocks@[key].modified by {
                assert(block_keys@.to_set().contains(key));
                let place = choose|place: int|
                    0 <= place < block_keys@.len() && block_keys@[place] == key;
                assert(!self.cache.blocks@[block_keys@[place]].modified);
            }
            self.lemma_written_back(&start);
            self.lemma_seen_twice(&start, old(self));
                            self.lemma_keeps_lines(&start, old(self));
            assert forall|key: u64| #[trigger]
                start.cache.blocks@.contains_key(key)
                    && start.cache.blocks@[key].modified implies Block::spec_stored(
                self.device.contents(),
                &self.superblock,
                key,
            ) == Some(start.cache.blocks@[key].value.data@) by {
                assert(block_keys@.to_set().contains(key));
                let place = choose|place: int|
                    0 <= place < block_keys@.len() && block_keys@[place] == key;
                assert(start.cache.blocks@[block_keys@[place]].modified);
            }
            assert(self.stores_modified(&start));
            assert forall|key: u64| #[trigger]
                self.cache.blocks@.contains_key(key) && start.cache.blocks@.contains_key(
                    key,
                ) implies self.cache.blocks@[key].stored == (start.cache.blocks@[key].stored
                || start.cache.blocks@[key].modified) by {
                assert(block_keys@.to_set().contains(key));
                let place = choose|place: int|
                    0 <= place < block_keys@.len() && block_keys@[place] == key;
                assert(self.cache.blocks@[block_keys@[place]].stored == (
                start.cache.blocks@[block_keys@[place]].stored
                    || start.cache.blocks@[block_keys@[place]].modified));
            }
            assert(self.stores_written(&start));
            assert(self.stores_written(old(self)));
            assert forall|key: u64| #[trigger]
                old(self).cache.inodes@.contains_key(key)
                    && old(self).cache.inodes@[key].modified implies Inode::spec_stored(
                self.device.contents(),
                &self.superblock,
                key,
            ) == Some(old(self).cache.inodes@[key].value) by {
                assert(start.cache.inodes@.contains_key(key));
            }
            assert forall|key: u64| #[trigger]
                old(self).cache.blocks@.contains_key(key)
                    && old(self).cache.blocks@[key].modified implies Block::spec_stored(
                self.device.contents(),
                &self.superblock,
                key,
            ) == Some(old(self).cache.blocks@[key].value.data@) by {
                assert(start.cache.blocks@.contains_key(key));
            }
        }
        Ok(())
    }

    /// Whether `self` is `before` after a flush that may or may not have
    /// reached the device: the filesystem is well formed, nothing was
    /// allocated or released, and the filesystem sees the same records.
    pub open spec fn settled_from(&self, before: &Self) -> bool {
        &&& self.wf()
        &&& self.same_allocation(before)
        &&& self.device.contents().len() == before.device.contents().len()
        &&& self.same_records(before)
    }

    /// Whether the device of `self` stores every record that the cache of
    /// `before` holds as modified.
    pub open spec fn stores_modified(&self, before: &Self) -> bool {
        &&& forall|key: u64| #[trigger]
            before.cache.inodes@.contains_key(key) && before.cache.inodes@[key].modified
                ==> Inode::spec_stored(self.device.contents(), &self.superblock, key) == Some(
                before.cache.inodes@[key].value,
            )
        &&& forall|key: u64| #[trigger]
            before.cache.blocks@.contains_key(key) && before.cache.blocks@[key].modified
                ==> Block::spec_stored(self.device.contents(), &self.superblock, key) == Some(
                before.cache.blocks@[key].value.data@,
            )
    }

    /// Whether every record that `before` has cached `self` has cached too.
    pub open spec fn keeps_cached(&self, before: &Self) -> bool {
        &&& forall|key: u64| #[trigger]
            before.cache.inodes@.contains_key(key) ==> self.cache.inodes@.contains_key(key)
        &&& forall|key: u64| #[trigger]
            before.cache.blocks@.contains_key(key) ==> self.cache.blocks@.contains_key(key)
    }

    /// Whether the cache of `self` holds lines of the cache of `before` with
    /// their records, and among them every line that was modified or not
    /// known to be stored: a flush evicts nothing else.
    pub open spec fn keeps_lines(&self, before: &Self) -> bool {
        &&& forall|key: u64| #[trigger]
            self.cache.inodes@.contains_key(key) ==> before.cache.inodes@.contains_key(key)
                && self.cache.inodes@[key].value == before.cache.inodes@[key].value
        &&& forall|key: u64| #[trigger]
            self.cache.blocks@.contains_key(key) ==> before.cache.blocks@.contains_key(key)
                && self.cache.blocks@[key].value.data@ == before.cache.blocks@[key].value.data@
        &&& forall|key: u64| #[trigger]
            before.cache.inodes@.contains_key(key) && (before.cache.inodes@[key].modified
                || !before.cache.inodes@[key].stored) ==> self.cache.inodes@.contains_key(key)
        &&& forall|key: u64| #[trigger]
            before.cache.blocks@.contains_key(key) && (before.cache.blocks@[key].modified
                || !before.cache.blocks@[key].stored) ==> self.cache.blocks@.contains_key(key)
    }

    /// Writing lines back evicts none.
    pub proof fn lemma_keeps_lines(&self, start: &Self, before: &Self)
        requires
            self.written_back(start),
            start.keeps_lines(before),
        ensures
            self.keeps_lines(before),
    {
        assert(self.cache.inodes@.dom() == start.cache.inodes@.dom());
        assert forall|key: u64| #[trigger]
            self.cache.inodes@.contains_key(key) implies before.cache.inodes@.contains_key(key)
            && self.cache.inodes@[key].value == before.cache.inodes@[key].value by {
            assert(start.cache.inodes@.contains_key(key));
        }
        assert forall|key: u64| #[trigger]
            self.cache.blocks@.contains_key(key) implies before.cache.blocks@.contains_key(key)
            && self.cache.blocks@[key].value.data@ == before.cache.blocks@[key].value.data@ by {
            assert(start.cache.blocks@.contains_key(key));
        }
        assert forall|key: u64| #[trigger]
            before.cache.inodes@.contains_key(key) && (before.cache.inodes@[key].modified
                || !before.cache.inodes@[key].stored) implies self.cache.inodes@.contains_key(
            key,
        ) by {
            assert(start.cache.inodes@.contains_key(key));
        }
        assert forall|key: u64| #[trigger]
            before.cache.blocks@.contains_key(key) && (before.cache.blocks@[key].modified
                || !before.cache.blocks@[key].stored) implies self.cache.blocks@.contains_key(
            key,
        ) by {
            assert(start.cache.blocks@.contains_key(key));
        }
    }

    /// Whether the cache of `self` holds every modified line of the cache of
    /// `before`, as it was.
    pub open spec fn keeps_modified(&self, before: &Self) -> bool {
        &&& forall|key: u64| #[trigger]
            before.cache.inodes@.contains_key(key) && before.cache.inodes@[key].modified
                ==> self.cache.inodes@.contains_key(key) && self.cache.inodes@[key]
                == before.cache.inodes@[key]
        &&& forall|key: u64| #[trigger]
            before.cache.blocks@.contains_key(key) && before.cache.blocks@[key].modified
                ==> self.cache.blocks@.contains_key(key) && self.cache.blocks@[key]
                == before.cache.blocks@[key]
    }

    /// A write that changes no stored record keeps what the device stores of
    /// the modified lines.
    pub proof fn lemma_stores_modified_kept(&self, earlier: &Self, before: &Self)
        requires
            earlier.stores_modified(before),
            self.superblock == earlier.superblock,
            forall|other: u64| #[trigger]
                Inode::spec_stored(self.device.contents(), &self.superblock, other)
                    == Inode::spec_stored(earlier.device.contents(), &earlier.superblock, other),
            forall|other: u64| #[trigger]
                Block::spec_stored(self.device.contents(), &self.superblock, other)
                    == Block::spec_stored(earlier.device.contents(), &earlier.superblock, other),
        ensures
            self.stores_modified(before),
    {
        assert forall|key: u64| #[trigger]
            before.cache.inodes@.contains_key(key)
                && before.cache.inodes@[key].modified implies Inode::spec_stored(
            self.device.contents(),
            &self.superblock,
            key,
        ) == Some(before.cache.inodes@[key].value) by {
            assert(Inode::spec_stored(self.device.contents(), &self.superblock, key)
                == Inode::spec_stored(earlier.device.contents(), &earlier.superblock, key));
        }
        assert forall|key: u64| #[trigger]
            before.cache.blocks@.contains_key(key)
                && before.cache.blocks@[key].modified implies Block::spec_stored(
            self.device.contents(),
            &self.superblock,
            key,
        ) == Some(before.cache.blocks@[key].value.data@) by {
            assert(Block::spec_stored(self.device.contents(), &self.superblock, key)
                == Block::spec_stored(earlier.device.contents(), &earlier.superblock, key));
        }
    }

    /// Whether the device of `self` holds the bytes of `before` from `from`
    /// up to `to`.
    pub open spec fn region_kept(&self, before: &Self, from: int, to: int) -> bool {
        &&& self.device.contents().len() == before.device.contents().len()
        &&& forall|at: int|
            from <= at < to && 0 <= at < before.device.contents().len()
                ==> self.device.contents()[at] == before.device.contents()[at]
    }

    /// A write elsewhere keeps a region that was kept; a region that is
    /// kept is kept in each part.
    pub proof fn lemma_region_kept(
        &self,
        middle: &Self,
        before: &Self,
        from: int,
        to: int,
        position: int,
        length: int,
    )
        requires
            changed_within(middle.device.contents(), self.device.contents(), position, length),
            position + length <= from || to <= position,
            exists|wider_from: int, wider_to: int|
                wider_from <= from && to <= wider_to && #[trigger] middle.region_kept(
                    before,
                    wider_from,
                    wider_to,
                ),
        ensures
            self.region_kept(before, from, to),
    {
    }

    /// Whether the device stores the superblock.
    pub open spec fn superblock_stored(&self) -> bool {
        let contents = self.device.contents();
        &&& self.superblock.block_size + SUPERBLOCK_SIZE <= contents.len()
        &&& contents.subrange(
            self.superblock.block_size as int,
            self.superblock.block_size + SUPERBLOCK_SIZE,
        ) == self.superblock.spec_bytes()
    }

    /// Whether the device stores the inode bitmap.
    pub open spec fn inode_bitmap_stored(&self) -> bool {
        let contents = self.device.contents();
        let inode_bytes = spec_size_in_bytes(self.inodes.count as nat);
        &&& self.inodes.position + inode_bytes <= contents.len()
        &&& contents.subrange(self.inodes.position as int, self.inodes.position + inode_bytes)
            == self.inodes.spec_content()
    }

    /// Whether a flush of `before`, however far it came, has written in
    /// order: the superblock and the bitmaps are touched only when every
    /// modified record is stored, the bitmaps only when the superblock is
    /// stored too, and the block bitmap only when the inode bitmap is stored.
    pub open spec fn flushed_in_order(&self, before: &Self) -> bool {
        let head = self.superblock.spec_inode_region_start();
        let bitmaps = self.superblock.spec_bitmap_region_start();
        let blocks = self.blocks.position as int;
        &&& self.stores_modified(before) || self.region_kept(before, 0, head)
        &&& (self.stores_modified(before) && self.superblock_stored()) || self.region_kept(
            before,
            bitmaps,
            head,
        )
        &&& self.inode_bitmap_stored() || self.region_kept(before, blocks, head)
    }

    /// Whether the device stores the superblock and both bitmaps.
    pub open spec fn allocation_stored(&self) -> bool {
        let contents = self.device.contents();
        let inode_bytes = spec_size_in_bytes(self.inodes.count as nat);
        let block_bytes = spec_size_in_bytes(self.blocks.count as nat);
        &&& self.blocks.position + block_bytes <= contents.len()
        &&& contents.subrange(
            self.superblock.block_size as int,
            self.superblock.block_size + SUPERBLOCK_SIZE,
        ) == self.superblock.spec_bytes()
        &&& contents.subrange(self.inodes.position as int, self.inodes.position + inode_bytes)
            == self.inodes.spec_content()
        &&& contents.subrange(self.blocks.position as int, self.blocks.position + block_bytes)
            == self.blocks.spec_content()
    }

    /// Force flush filesystem changes to its block device: prunes the cache,
    /// writes every modified line, then the superblock, then the inode
    /// bitmap, then the block bitmap, and restarts the write-back timer.
    /// After success no line is modified and the device stores the
    /// superblock, the bitmaps, and every record that was cached as modified.
    pub fn force_flush(&mut self) -> (result: Result<(), Error>)
        requires
            old(self).wf(),
        ensures
            final(self).settled_from(old(self)),
            final(self).keeps_lines(old(self)),
            final(self).flushed_in_order(old(self)),
            match result {
                Ok(_) => {
                    &&& final(self).cache.clean()
                    &&& final(self).last_flush is Some
                    &&& final(self).allocation_stored()
                    &&& final(self).stores_modified(old(self))
                    &&& final(self).stores_written(old(self))
                },
                Err(e) => e is Io && final(self).last_flush == old(self).last_flush,
            },
    {
        let now = clock_millis(&self.clock);
        self.force_flush_at(now)
    }

    /// `force_flush` with the clock reading `now`.
    #[verifier::rlimit(60)]
    pub fn force_flush_at(&mut self, now: u64) -> (result: Result<(), Error>)
        requires
            old(self).wf(),
        ensures
            final(self).settled_from(old(self)),
            final(self).keeps_lines(old(self)),
            final(self).flushed_in_order(old(self)),
            match result {
                Ok(_) => {
                    &&& final(self).cache.clean()
                    &&& final(self).last_flush == Some(now)
                    &&& final(self).allocation_stored()
                    &&& final(self).stores_modified(old(self))
                    &&& final(self).stores_written(old(self))
                },
                Err(e) => e is Io && final(self).last_flush == old(self).last_flush,
            },
    {
        let cached = self.flush_cache();
        proof {
            self.superblock.lemma_regions_ordered();
            self.superblock.lemma_round_trip(&self.superblock);
            self.inodes.lemma_content_exists();
            self.blocks.lemma_content_exists();
            lemma_size_in_bytes(self.inodes.count as nat);
            lemma_size_in_bytes(self.blocks.count as nat);
        }
        let ghost head = self.superblock.spec_inode_region_start();
        let ghost bitmaps = self.superblock.spec_bitmap_region_start();
        if let Err(e) = cached {
            proof {
                assert(self.region_kept(old(self), bitmaps, head));
                assert(self.region_kept(old(self), self.blocks.position as int, head));
            }
            return Err(e);
        }
        let ghost start = *self;
        assert(start.stores_modified(old(self)));
        let ghost inode_bytes = spec_size_in_bytes(self.inodes.count as nat) as int;
        let ghost block_bytes = spec_size_in_bytes(self.blocks.count as nat) as int;
        let stored = self.superblock.flush(&mut self.device);
        proof {
            lemma_head_write(
                &self.superblock,
                start.device.contents(),
                self.device.contents(),
                self.superblock.block_size as int,
                SUPERBLOCK_SIZE as int,
            );
            assert(self.written_back(&start));
            self.lemma_written_back(&start);
            self.lemma_seen_twice(&start, old(self));
                            self.lemma_keeps_lines(&start, old(self));
            self.lemma_stores_modified_kept(&start, old(self));
            self.lemma_region_kept(
                &start,
                old(self),
                bitmaps,
                head,
                self.superblock.block_size as int,
                SUPERBLOCK_SIZE as int,
            );
            assert(self.region_kept(old(self), self.blocks.position as int, head));
        }
        if let Err(e) = stored {
            return Err(e);
        }
        assert(self.device.contents().subrange(
            self.superblock.block_size as int,
            self.superblock.block_size + SUPERBLOCK_SIZE,
        ) =~= self.superblock.spec_bytes());
        let ghost second = *self;
        let stored = self.inodes.flush(&mut self.device);
        proof {
            lemma_head_write(
                &self.superblock,
                second.device.contents(),
                self.device.contents(),
                self.inodes.position as int,
                inode_bytes,
            );
            assert(self.written_back(&second));
            self.lemma_written_back_twice(&second, &start);
            self.lemma_written_back(&start);
            self.lemma_seen_twice(&start, old(self));
                            self.lemma_keeps_lines(&start, old(self));
            self.lemma_stores_modified_kept(&second, old(self));
            assert(self.device.contents().subrange(
                self.superblock.block_size as int,
                self.superblock.block_size + SUPERBLOCK_SIZE,
            ) =~= second.device.contents().subrange(
                self.superblock.block_size as int,
                self.superblock.block_size + SUPERBLOCK_SIZE,
            ));
            self.lemma_region_kept(
                &second,
                old(self),
                self.blocks.position as int,
                head,
                self.inodes.position as int,
                inode_bytes,
            );
        }
        if let Err(e) = stored {
            return Err(e);
        }
        assert(self.device.contents().subrange(
            self.superblock.block_size as int,
            self.superblock.block_size + SUPERBLOCK_SIZE,
        ) =~= second.device.contents().subrange(
            self.superblock.block_size as int,
            self.superblock.block_size + SUPERBLOCK_SIZE,
        ));
        assert(self.device.contents().subrange(
            self.inodes.position as int,
            self.inodes.position + inode_bytes,
        ) =~= self.inodes.spec_content());
        let ghost third = *self;
        let stored = self.blocks.flush(&mut self.device);
        proof {
            lemma_head_write(
                &self.superblock,
                third.device.contents(),
                self.device.contents(),
                self.blocks.position as int,
                block_bytes,
            );
            assert(self.written_back(&third));
            self.lemma_written_back_twice(&third, &start);
            self.lemma_written_back(&start);
            self.lemma_seen_twice(&start, old(self));
                            self.lemma_keeps_lines(&start, old(self));
            self.lemma_stores_modified_kept(&third, old(self));
            assert(self.device.contents().subrange(
                self.superblock.block_size as int,
                self.superblock.block_size + SUPERBLOCK_SIZE,
            ) =~= third.device.contents().subrange(
                self.superblock.block_size as int,
                self.superblock.block_size + SUPERBLOCK_SIZE,
            ));
            assert(self.device.contents().subrange(
                self.inodes.position as int,
                self.inodes.position + inode_bytes,
            ) =~= third.device.contents().subrange(
                self.inodes.position as int,
                self.inodes.position + inode_bytes,
            ));
        }
        if let Err(e) = stored {
            return Err(e);
        }
        let ghost written = *self;
        self.last_flush = Some(now);
        proof {
            assert forall|index: u64| #[trigger] self.block_view(index) == written.block_view(
                index,
            ) by {}
            assert forall|index: u64| #[trigger] self.inode_view(index) == written.inode_view(
                index,
            ) by {}
            self.lemma_seen_twice(&written, old(self));
            let contents = self.device.contents();
            let block_size = self.superblock.block_size as int;
            assert(contents.subrange(block_size, block_size + SUPERBLOCK_SIZE)
                =~= third.device.contents().subrange(block_size, block_size + SUPERBLOCK_SIZE));
            assert(contents.subrange(self.inodes.position as int, self.inodes.position + inode_bytes)
                =~= third.device.contents().subrange(
                self.inodes.position as int,
                self.inodes.position + inode_bytes,
            ));
            assert(contents.subrange(self.blocks.position as int, self.blocks.position + block_bytes)
                =~= self.blocks.spec_content());
        }
        Ok(())
    }

    /// Flush filesystem changes to cache and periodically call
    /// [`Self::force_flush`]: when no flush was forced yet, or the last one
    /// is at least `DIRTY_PAGE_MAX_MILLIS` old, this is `force_flush`;
    /// otherwise nothing happens.
    pub fn flush(&mut self) -> (result: Result<(), Error>)
        requires
            old(self).wf(),
        ensures
            final(self).settled_from(old(self)),
            exists|now: u64| #[trigger] final(self).flushed_at(old(self), now, result),
            match result {
                Ok(_) => *final(self) == *old(self) || (final(self).cache.clean() && final(self).last_flush is Some && final(self).allocation_stored() && final(self).stores_modified(old(self))),
                Err(e) => e is Io && final(self).last_flush == old(self).last_flush,
            },
            old(self).last_flush is None && result is Ok ==> final(self).cache.clean() && final(self).last_flush is Some && final(self).allocation_stored() && final(self).stores_modified(
                old(self),
            ),
    {
        let now = clock_millis(&self.clock);
        let flushed = self.flush_at(now);
        proof {
            assert(self.flushed_at(old(self), now, flushed));
        }
        flushed
    }

    /// `flush` with the clock reading `now`.
    pub fn flush_at(&mut self, now: u64) -> (result: Result<(), Error>)
        requires
            old(self).wf(),
        ensures
            final(self).settled_from(old(self)),
            final(self).flushed_at(old(self), now, result),
    {
        if !flush_due(self.last_flush, now) {
            return Ok(());
        }
        self.force_flush_at(now)
    }

    /// Whether `self` and `result` are what a flush of `before` at the clock
    /// reading `now` gives: where a flush is due, a forced flush at that
    /// reading; where none is due, success with nothing changed.
    pub open spec fn flushed_at(&self, before: &Self, now: u64, result: Result<(), Error>) -> bool {
        if spec_flush_due(before.last_flush, now) {
            &&& self.keeps_lines(before)
            &&& self.flushed_in_order(before)
            &&& match result {
                Ok(_) => {
                    &&& self.cache.clean()
                    &&& self.last_flush == Some(now)
                    &&& self.allocation_stored()
                    &&& self.stores_modified(before)
                    &&& self.stores_written(before)
                },
                Err(e) => e is Io && self.last_flush == before.last_flush,
            }
        } else {
            result is Ok && *self == *before
        }
    }

    /// Whether `self` is `before` with inode `index` marked allocated
    /// (`live`) or free, the free count adjusted, and the block side untouched.
    pub open spec fn with_inode(&self, before: &Self, index: u64, live: bool) -> bool {
        &&& self.wf()
        &&& self.superblock == (Superblock {
            inodes_free: self.superblock.inodes_free,
            ..before.superblock
        })
        &&& self.superblock.inodes_free == before.superblock.inodes_free + (if live {
            -1int
        } else {
            1int
        })
        &&& self.inode_live(index) == live
        &&& forall|other: u64|
            other != index ==> #[trigger] self.inode_live(other) == before.inode_live(other)
        &&& forall|other: u64| #[trigger] self.block_live(other) == before.block_live(other)
        &&& self.device.contents().len() == before.device.contents().len()
        &&& self.same_records(before)
    }

    /// Whether `self` is `before` with block `index` marked allocated
    /// (`live`) or free, the free count adjusted, and the inode side untouched.
    pub open spec fn with_block(&self, before: &Self, index: u64, live: bool) -> bool {
        &&& self.wf()
        &&& self.superblock == (Superblock {
            blocks_free: self.superblock.blocks_free,
            ..before.superblock
        })
        &&& self.superblock.blocks_free == before.superblock.blocks_free + (if live {
            -1int
        } else {
            1int
        })
        &&& self.block_live(index) == live
        &&& forall|other: u64|
            other != index ==> #[trigger] self.block_live(other) == before.block_live(other)
        &&& forall|other: u64| #[trigger] self.inode_live(other) == before.inode_live(other)
        &&& self.device.contents().len() == before.device.contents().len()
        &&& self.same_records(before)
    }

    /// The free counts are at most the totals, and the allocation counts add up.
    pub proof fn lemma_consistent_counts(&self)
        requires
            self.wf(),
        ensures
            self.superblock.inodes_free <= self.superblock.inode_count,
            self.superblock.blocks_free <= self.superblock.block_count,
            self.superblock.inodes_free + self.inodes.used() == self.superblock.inode_count,
            self.superblock.blocks_free + self.blocks.used() == self.superblock.block_count,
            self.inodes.count == self.superblock.inode_count,
            self.blocks.count == self.superblock.block_count,
            self.inodes.wf(),
            self.blocks.wf(),
    {
        self.inodes.lemma_used_bounds(self.inodes.count as int);
        self.blocks.lemma_used_bounds(self.blocks.count as int);
    }

    /// The indexes of the blocks that are allocated.
    pub open spec fn live_blocks(&self) -> Set<int> {
        Set::new(
            |index: int| 0 <= index < self.superblock.block_count && self.block_live(index as u64),
        )
    }

    /// As many blocks are allocated as are not free.
    pub proof fn lemma_live_blocks(&self)
        requires
            self.wf(),
        ensures
            self.live_blocks().finite(),
            self.live_blocks().len() == self.superblock.block_count - self.superblock.blocks_free,
    {
        self.blocks.lemma_used_count(self.blocks.count as int);
        assert(self.live_blocks() =~= self.blocks.set_below(self.blocks.count as int));
    }

    /// No block can be allocated exactly when the count of free blocks is 0.
    pub proof fn lemma_no_free_block(&self)
        requires
            self.wf(),
        ensures
            self.spec_free_block() is None <==> self.superblock.blocks_free == 0,
    {
        self.lemma_free_index();
        self.blocks.lemma_used_bounds(self.blocks.count as int);
        if self.spec_free_block() is None {
            assert forall|index: int| 0 <= index < self.blocks.count implies #[trigger] self.blocks.bit(
                index,
            ) by {
                assert(self.block_live(index as u64));
            }
            self.blocks.lemma_used_full(self.blocks.count as int);
        } else {
            let free = self.spec_free_block()->Some_0;
            self.blocks.lemma_used_free(free as int, self.blocks.count as int);
        }
    }

    /// An index is allocated when it is below its count and its bit is set.
    pub proof fn lemma_live_bits(&self, index: u64)
        ensures
            self.inode_live(index) == (index < self.superblock.inode_count && self.inodes.bit(
                index as int,
            )),
            self.block_live(index) == (index < self.superblock.block_count && self.blocks.bit(
                index as int,
            )),
    {
    }

    /// Allocated indexes are below their count.
    pub proof fn lemma_live_bounded(&self)
        ensures
            forall|index: u64| #[trigger]
                self.block_live(index) ==> index < self.superblock.block_count,
            forall|index: u64| #[trigger]
                self.inode_live(index) ==> index < self.superblock.inode_count,
    {
    }

    /// Filesystems with the same allocation have the same allocated indexes
    /// and the same free indexes.
    pub proof fn lemma_same_allocation(&self, other: &Self)
        requires
            self.same_allocation(other),
        ensures
            forall|index: u64| #[trigger] self.block_live(index) == other.block_live(index),
            forall|index: u64| #[trigger] self.inode_live(index) == other.inode_live(index),
            self.spec_free_block() == other.spec_free_block(),
            self.spec_free_inode() == other.spec_free_inode(),
    {
        self.blocks.lemma_next_free_agree(&other.blocks, 0);
        self.inodes.lemma_next_free_agree(&other.inodes, 0);
    }

    /// The free index that allocation takes is free and within the count,
    /// every lower index is allocated, and without one every index is allocated.
    pub proof fn lemma_free_index(&self)
        requires
            self.wf(),
        ensures
            match self.spec_free_block() {
                Some(index) => index < self.superblock.block_count && !self.block_live(index)
                    && forall|lower: u64| lower < index ==> #[trigger] self.block_live(lower),
                None => forall|index: u64|
                    index < self.superblock.block_count ==> #[trigger] self.block_live(index),
            },
            match self.spec_free_inode() {
                Some(index) => index < self.superblock.inode_count && !self.inode_live(index)
                    && forall|lower: u64| lower < index ==> #[trigger] self.inode_live(lower),
                None => forall|index: u64|
                    index < self.superblock.inode_count ==> #[trigger] self.inode_live(index),
            },
    {
        self.blocks.lemma_capacity();
        self.inodes.lemma_capacity();
        self.blocks.lemma_next_free(0);
        self.inodes.lemma_next_free(0);
    }

    /// Whether nothing of the filesystem differs from `before`.
    pub open spec fn unchanged_from(&self, before: &Self) -> bool {
        &&& self.same_allocation(before)
        &&& self.cache.same_lines(&before.cache)
        &&& self.device.contents() == before.device.contents()
        &&& self.last_flush == before.last_flush
    }

    /// The lowest free inode index below the inode count, if there is one.
    pub closed spec fn spec_free_inode(&self) -> Option<u64> {
        match self.inodes.spec_next_free(0) {
            Some(index) => if index < self.superblock.inode_count {
                Some(index as u64)
            } else {
                None
            },
            None => None,
        }
    }

    /// The lowest free block index below the block count, if there is one.
    pub closed spec fn spec_free_block(&self) -> Option<u64> {
        match self.blocks.spec_next_free(0) {
            Some(index) => if index < self.superblock.block_count {
                Some(index as u64)
            } else {
                None
            },
            None => None,
        }
    }

    /// Records seen by a filesystem depend on the geometry, the cache and
    /// the device, not on which indexes are allocated.
    pub proof fn lemma_records_ignore_allocation(&self, before: &Self)
        requires
            self.superblock.inode_count == before.superblock.inode_count,
            self.superblock.block_count == before.superblock.block_count,
            self.superblock.block_size == before.superblock.block_size,
            self.cache.same_lines(&before.cache),
            self.device.contents() == before.device.contents(),
        ensures
            self.same_records(before),
    {
        assert forall|index: u64| #[trigger] self.block_view(index) == before.block_view(index) by {
            assert(self.superblock.spec_block_position(index)
                == before.superblock.spec_block_position(index));
        }
        assert forall|index: u64| #[trigger] self.inode_view(index) == before.inode_view(index) by {
            assert(self.superblock.spec_inode_position(index)
                == before.superblock.spec_inode_position(index));
        }
    }

    /// Get index of first empty inode: the lowest free index is marked
    /// allocated and returned. `OutOfMemory` when no index below the inode
    /// count is free. A flush follows the allocation; when it fails the
    /// inode stays allocated and the error is returned.
    pub fn acquire_inode(&mut self) -> (result: Result<u64, Error>)
        requires
            old(self).wf(),
        ensures
            final(self).wf(),
            match old(self).spec_free_inode() {
                Some(index) => {
                    &&& final(self).with_inode(old(self), index, true)
                    &&& !old(self).inode_live(index)
                    &&& match result {
                        Ok(acquired) => acquired == index,
                        Err(e) => e is Io,
                    }
                },
                None => {
                    &&& result matches Err(e) && e is OutOfMemory
                    &&& final(self).unchanged_from(old(self))
                },
            },
    {
        proof {
            self.inodes.lemma_capacity();
        }
        if let Some(index) = self.inodes.next_free(0) {
            if index >= self.superblock.inode_count {
                return Err(Error::OutOfMemory);
            }
            proof {
                self.inodes.lemma_used_free(index as int, self.inodes.count as int);
            }
            let ghost before = self.inodes;
            self.superblock.inodes_free -= 1;
            let marked = self.inodes.set(index, true);
            assert(marked is Ok);
            proof {
                before.lemma_used_change(&self.inodes, index as int, self.inodes.count as int);
                self.blocks.lemma_used_agree(&old(self).blocks, self.blocks.count as int);
                self.lemma_records_ignore_allocation(old(self));
            }
            let ghost marked_state = *self;
            let flushed = self.flush();
            proof {
                self.lemma_settled(&marked_state, old(self));
            }
            match flushed {
                Ok(_) => Ok(index),
                Err(e) => Err(e),
            }
        } else {
            Err(Error::OutOfMemory)
        }
    }

    /// A flush after a change keeps what the change established.
    pub proof fn lemma_settled(&self, changed: &Self, before: &Self)
        requires
            self.settled_from(changed),
            changed.same_records(before),
            changed.superblock.inode_count == before.superblock.inode_count,
            changed.superblock.block_count == before.superblock.block_count,
        ensures
            self.same_records(before),
            forall|index: int| self.inodes.bit(index) == changed.inodes.bit(index),
            forall|index: int| self.blocks.bit(index) == changed.blocks.bit(index),
            self.inodes.capacity() == changed.inodes.capacity(),
            self.blocks.capacity() == changed.blocks.capacity(),
    {
    }

    /// Release inode at index: marks it free. `OutOfBounds` when `index` is
    /// not below the inode count, `DoubleRelease` when the inode is not
    /// allocated. A flush follows the release; when it fails the inode stays
    /// released and the error is returned.
    pub fn release_inode(&mut self, index: u64) -> (result: Result<(), Error>)
        requires
            old(self).wf(),
        ensures
            final(self).wf(),
            if index >= old(self).superblock.inode_count {
                &&& result matches Err(e) && e is OutOfBounds
                &&& final(self).unchanged_from(old(self))
            } else if !old(self).inode_live(index) {
                &&& result matches Err(e) && e is DoubleRelease
                &&& final(self).unchanged_from(old(self))
            } else {
                &&& final(self).with_inode(old(self), index, false)
                &&& result matches Err(e) ==> e is Io
            },
    {
        proof {
            self.inodes.lemma_capacity();
        }
        match self.inodes.get(index) {
            Err(e) => Err(e),
            Ok(false) => Err(Error::DoubleRelease),
            Ok(true) => {
                let ghost before = self.inodes;
                proof {
                    self.inodes.lemma_used_bounds(self.inodes.count as int);
                    self.inodes.lemma_used_positive(index as int, self.inodes.count as int);
                }
                self.superblock.inodes_free += 1;
                let marked = self.inodes.set(index, false);
                assert(marked is Ok);
                proof {
                    before.lemma_used_change(&self.inodes, index as int, self.inodes.count as int);
                    self.blocks.lemma_used_agree(&old(self).blocks, self.blocks.count as int);
                    self.lemma_records_ignore_allocation(old(self));
                }
                let ghost marked_state = *self;
                let flushed = self.flush();
                proof {
                    self.lemma_settled(&marked_state, old(self));
                }
                flushed
            },
        }
    }

    /// Get index of first empty block: the lowest free index is marked
    /// allocated and returned. `OutOfMemory` when no index below the block
    /// count is free. A flush follows the allocation; when it fails the
    /// block stays allocated and the error is returned.
    pub fn acquire_block(&mut self) -> (result: Result<u64, Error>)
        requires
            old(self).wf(),
        ensures
            final(self).wf(),
            final(self).same_inodes(old(self)),
            match old(self).spec_free_block() {
                Some(index) => {
                    &&& final(self).with_block(old(self), index, true)
                    &&& !old(self).block_live(index)
                    &&& match result {
                        Ok(acquired) => acquired == index,
                        Err(e) => e is Io,
                    }
                },
                None => {
                    &&& result matches Err(e) && e is OutOfMemory
                    &&& final(self).unchanged_from(old(self))
                },
            },
    {
        proof {
            self.blocks.lemma_capacity();
        }
        if let Some(index) = self.blocks.next_free(0) {
            if index >= self.superblock.block_count {
                return Err(Error::OutOfMemory);
            }
            proof {
                self.blocks.lemma_used_free(index as int, self.blocks.count as int);
            }
            let ghost before = self.blocks;
            self.superblock.blocks_free -= 1;
            let marked = self.blocks.set(index, true);
            assert(marked is Ok);
            proof {
                before.lemma_used_change(&self.blocks, index as int, self.blocks.count as int);
                self.inodes.lemma_used_agree(&old(self).inodes, self.inodes.count as int);
                self.lemma_records_ignore_allocation(old(self));
            }
            let ghost marked_state = *self;
            let flushed = self.flush();
            proof {
                self.lemma_settled(&marked_state, old(self));
            }
            match flushed {
                Ok(_) => Ok(index),
                Err(e) => Err(e),
            }
        } else {
            Err(Error::OutOfMemory)
        }
    }

    /// Release block at index: marks it free. `OutOfBounds` when `index` is
    /// not below the block count, `DoubleRelease` when the block is not
    /// allocated. A flush follows the release; when it fails the block stays
    /// released and the error is returned.
    pub fn release_block(&mut self, index: u64) -> (result: Result<(), Error>)
        requires
            old(self).wf(),
        ensures
            final(self).wf(),
            final(self).same_inodes(old(self)),
            if index >= old(self).superblock.block_count {
                &&& result matches Err(e) && e is OutOfBounds
                &&& final(self).unchanged_from(old(self))
            } else if !old(self).block_live(index) {
                &&& result matches Err(e) && e is DoubleRelease
                &&& final(self).unchanged_from(old(self))
            } else {
                &&& final(self).with_block(old(self), index, false)
                &&& result matches Err(e) ==> e is Io
            },
    {
        proof {
            self.blocks.lemma_capacity();
        }
        match self.blocks.get(index) {
            Err(e) => Err(e),
            Ok(false) => Err(Error::DoubleRelease),
            Ok(true) => {
                let ghost before = self.blocks;
                proof {
                    self.blocks.lemma_used_bounds(self.blocks.count as int);
                    self.blocks.lemma_used_positive(index as int, self.blocks.count as int);
                }
                self.superblock.blocks_free += 1;
                let marked = self.blocks.set(index, false);
                assert(marked is Ok);
                proof {
                    before.lemma_used_change(&self.blocks, index as int, self.blocks.count as int);
                    self.inodes.lemma_used_agree(&old(self).inodes, self.inodes.count as int);
                    self.lemma_records_ignore_allocation(old(self));
                }
                let ghost marked_state = *self;
                let flushed = self.flush();
                proof {
                    self.lemma_settled(&marked_state, old(self));
                }
                flushed
            },
        }
    }

    /// Whether `self` is `before` but for cache lines that were added or
    /// accessed: nothing was allocated, released or written.
    pub open spec fn cached_from(&self, before: &Self) -> bool {
        &&& self.wf()
        &&& self.same_allocation(before)
        &&& self.device.contents() == before.device.contents()
        &&& self.last_flush == before.last_flush
    }

    /// Load inode with index: the record that the filesystem sees.
    /// `OutOfBounds` when the inode is not allocated. An inode that is not
    /// cached is read from the device: `Io` when the read fails,
    /// `InsufficientBytes` when what is stored is no record. A record read
    /// from the device is cached when it names the inode that was asked for.
    pub fn load_inode(&mut self, index: u64) -> (result: Result<Inode, Error>)
        requires
            old(self).wf(),
        ensures
            final(self).cached_from(old(self)),
            final(self).same_records(old(self)),
            final(self).cache.blocks@ == old(self).cache.blocks@,
            final(self).keeps_cached(old(self)),
            match result {
                Ok(inode) => {
                    &&& old(self).inode_live(index)
                    &&& old(self).inode_view(index) == Some(inode)
                    &&& final(self).cache.inodes@.dom() == (if inode.index == index {
                        old(self).cache.inodes@.dom().insert(index)
                    } else {
                        old(self).cache.inodes@.dom()
                    })
                },
                Err(e) => {
                    &&& final(self).cache.same_lines(&old(self).cache)
                    &&& if !old(self).inode_live(index) {
                        e is OutOfBounds
                    } else {
                        &&& !old(self).cache.inodes@.contains_key(index)
                        &&& e is Io || (e is InsufficientBytes && old(self).inode_view(index)
                            is None)
                    }
                },
            },
    {
        match self.inodes.get(index) {
            Err(e) => {
                return Err(e);
            },
            Ok(false) => {
                return Err(Error::OutOfBounds);
            },
            Ok(true) => {},
        }
        let now = clock_millis(&self.clock);
        let cached = self.cache.get_inode(index, now);
        if let Some(inode) = cached {
            proof {
                self.lemma_same_lines(old(self));
                assert(self.cache.inodes@.dom() =~= old(self).cache.inodes@.dom().insert(index));
                self.lemma_cached(old(self));
            }
            return Ok(inode);
        }
        proof {
            lemma_inode_position(&self.superblock, index);
        }
        match Inode::load(&mut self.device, &self.superblock, index) {
            Ok(inode) => {
                if inode.index != index {
                    proof {
                        self.lemma_same_lines(old(self));
                        self.lemma_cached(old(self));
                    }
                    return Ok(inode);
                }
                self.cache.hold_inode(&inode, now);
                proof {
                    self.lemma_same_lines(old(self));
                    self.lemma_cached(old(self));
                    assert(old(self).inode_live(index));
                    assert(old(self).inode_view(index) == Some(inode));
                    assert(self.cache.inodes@.dom() == old(self).cache.inodes@.dom().insert(index));
                }
                Ok(inode)
            },
            Err(e) => Err(e),
        }
    }

    /// Whether `self` sees the bytes `data` in block `index` and everything
    /// else as `before` does.
    pub open spec fn with_block_bytes(&self, before: &Self, index: u64, data: Seq<u8>) -> bool {
        &&& self.block_view(index) == data
        &&& forall|other: u64|
            other != index ==> #[trigger] self.block_view(other) == before.block_view(other)
        &&& forall|other: u64| #[trigger] self.inode_view(other) == before.inode_view(other)
    }

    /// Whether `self` sees the record `inode` under its index and everything
    /// else as `before` does.
    pub open spec fn with_inode_record(&self, before: &Self, inode: Inode) -> bool {
        &&& self.inode_view(inode.index) == Some(inode)
        &&& forall|other: u64|
            other != inode.index ==> #[trigger] self.inode_view(other) == before.inode_view(other)
        &&& forall|other: u64| #[trigger] self.block_view(other) == before.block_view(other)
    }

    /// Load block with index. If `empty` is true, skip loading data and
    /// return zero-initialized block without a successor, which the
    /// filesystem sees from then on. Otherwise the bytes that the filesystem
    /// sees are returned. `OutOfBounds` when the block is not allocated; `Io`
    /// when a block that is not cached cannot be read. The block is cached.
    pub fn load_block(&mut self, index: u64, empty: bool) -> (result: Result<Block, Error>)
        requires
            old(self).wf(),
        ensures
            final(self).cached_from(old(self)),
            final(self).cache.inodes@ == old(self).cache.inodes@,
            !empty || result is Err ==> final(self).same_records(old(self)),
            final(self).keeps_cached(old(self)),
            match result {
                Ok(block) => {
                    &&& old(self).block_live(index)
                    &&& block.index == index
                    &&& block.data@.len() == old(self).superblock.block_size
                    &&& final(self).with_block_bytes(old(self), index, block.data@)
                    &&& final(self).cache.blocks@.dom() == old(self).cache.blocks@.dom().insert(
                        index,
                    )
                    &&& if empty {
                        block.data@ == spec_empty_block(old(self).superblock.block_size as nat)
                    } else {
                        block.data@ == old(self).block_view(index)
                    }
                },
                Err(e) => {
                    &&& final(self).cache.same_lines(&old(self).cache)
                    &&& if !old(self).block_live(index) {
                        e is OutOfBounds
                    } else {
                        !empty && !old(self).cache.blocks@.contains_key(index) && e is Io
                    }
                },
            },
    {
        proof {
            self.lemma_same_lines(old(self));
        }
        match self.blocks.get(index) {
            Err(e) => {
                return Err(e);
            },
            Ok(false) => {
                return Err(Error::OutOfBounds);
            },
            Ok(true) => {},
        }
        let now = clock_millis(&self.clock);
        if empty {
            let block = Block { index, data: empty_block(self.superblock.block_size) };
            self.cache.set_block(&block, now);
            proof {
                self.lemma_cached(old(self));
                self.lemma_records_but_block(old(self), index);
            }
            return Ok(block);
        }
        let cached = self.cache.get_block(index, now);
        if let Some(block) = cached {
            proof {
                self.lemma_same_lines(old(self));
                assert(self.cache.blocks@.dom() =~= old(self).cache.blocks@.dom().insert(index));
                self.lemma_cached(old(self));
            }
            return Ok(block);
        }
        proof {
            self.superblock.lemma_block_position(index);
        }
        match Block::load(&mut self.device, &self.superblock, index) {
            Ok(block) => {
                self.cache.hold_block(&block, now);
                proof {
                    self.lemma_same_lines(old(self));
                    self.lemma_cached(old(self));
                }
                Ok(block)
            },
            Err(e) => Err(e),
        }
    }

    /// A filesystem that differs from `before` in the cache line of one
    /// block sees every other record as `before` does.
    pub proof fn lemma_records_but_block(&self, before: &Self, index: u64)
        requires
            self.superblock == before.superblock,
            self.device.contents() == before.device.contents(),
            self.cache.inodes@ == before.cache.inodes@,
            self.cache.blocks@.contains_key(index),
            forall|key: u64|
                key != index ==> (#[trigger] self.cache.blocks@.contains_key(key)
                    == before.cache.blocks@.contains_key(key)),
            forall|key: u64|
                key != index && #[trigger] before.cache.blocks@.contains_key(key)
                    ==> self.cache.blocks@[key].value.data@
                    == before.cache.blocks@[key].value.data@,
        ensures
            self.with_block_bytes(before, index, self.cache.blocks@[index].value.data@),
    {
        assert forall|other: u64| other != index implies #[trigger] self.block_view(other)
            == before.block_view(other) by {
            assert(self.cache.blocks@.contains_key(other) == before.cache.blocks@.contains_key(
                other,
            ));
        }
    }

    /// A filesystem that differs from `before` in the cache line of one
    /// inode sees every other record as `before` does.
    pub proof fn lemma_records_but_inode(&self, before: &Self, index: u64)
        requires
            self.superblock == before.superblock,
            self.device.contents() == before.device.contents(),
            self.cache.blocks@ == before.cache.blocks@,
            self.cache.inodes@.contains_key(index),
            self.cache.inodes@[index].value.index == index,
            forall|key: u64|
                key != index ==> (#[trigger] self.cache.inodes@.contains_key(key)
                    == before.cache.inodes@.contains_key(key)),
            forall|key: u64|
                key != index && #[trigger] before.cache.inodes@.contains_key(key)
                    ==> self.cache.inodes@[key] == before.cache.inodes@[key],
        ensures
            self.with_inode_record(before, self.cache.inodes@[index].value),
    {
        assert forall|other: u64| other != index implies #[trigger] self.inode_view(other)
            == before.inode_view(other) by {
            assert(self.cache.inodes@.contains_key(other) == before.cache.inodes@.contains_key(
                other,
            ));
        }
    }

    /// Flush inode: the record is stored in the cache under its index, and a
    /// flush follows. `OutOfBounds`, with nothing changed, when the index is
    /// not below the inode count. When the flush fails the record stays
    /// cached and the error is returned. The filesystem sees the
    /// record from then on.
    pub fn flush_inode(&mut self, inode: &Inode) -> (result: Result<(), Error>)
        requires
            old(self).wf(),
        ensures
            final(self).wf(),
            final(self).same_allocation(old(self)),
            if inode.index >= old(self).superblock.inode_count {
                &&& result matches Err(e) && e is OutOfBounds
                &&& final(self).unchanged_from(old(self))
            } else {
                &&& result matches Err(e) ==> e is Io
                &&& final(self).with_inode_record(old(self), *inode)
            },
    {
        if inode.index >= self.superblock.inode_count {
            return Err(Error::OutOfBounds);
        }
        let now = clock_millis(&self.clock);
        self.cache.set_inode(inode, now);
        proof {
            self.lemma_cached(old(self));
            self.lemma_records_but_inode(old(self), inode.index);
        }
        let ghost stored = *self;
        let flushed = self.flush();
        flushed
    }

    /// Flush block: the block is stored in the cache under its index, and a
    /// flush follows. With nothing changed, `OutOfBounds` when the index is
    /// not below the block count and `InsufficientBytes` when the block does
    /// not have the filesystem's block size. When the flush fails the block
    /// stays cached and the error is returned. The filesystem sees
    /// the block's bytes from then on.
    pub fn flush_block(&mut self, block: &Block) -> (result: Result<(), Error>)
        requires
            old(self).wf(),
        ensures
            final(self).wf(),
            final(self).same_allocation(old(self)),
            if block.index >= old(self).superblock.block_count {
                &&& result matches Err(e) && e is OutOfBounds
                &&& final(self).unchanged_from(old(self))
            } else if block.data@.len() != old(self).superblock.block_size {
                &&& result matches Err(e) && e is InsufficientBytes
                &&& final(self).unchanged_from(old(self))
            } else {
                &&& result matches Err(e) ==> e is Io
                &&& final(self).with_block_bytes(
                    old(self),
                    block.index,
                    block.data@,
                )
            },
    {
        if block.index >= self.superblock.block_count {
            return Err(Error::OutOfBounds);
        }
        if block.data.len() != self.superblock.block_size as usize {
            return Err(Error::InsufficientBytes);
        }
        let now = clock_millis(&self.clock);
        self.cache.set_block(block, now);
        proof {
            self.lemma_cached(old(self));
            self.lemma_records_but_block(old(self), block.index);
        }
        let flushed = self.flush();
        flushed
    }

    /// A filesystem whose cache lines hold records of the filesystem and
    /// whose allocation is that of a well-formed one is well formed.
    pub proof fn lemma_cached(&self, before: &Self)
        requires
            before.wf(),
            self.same_allocation(before),
            self.cache.wf(),
            forall|key: u64| #[trigger]
                self.cache.inodes@.contains_key(key) ==> key < self.superblock.inode_count,
            forall|key: u64| #[trigger]
                self.cache.blocks@.contains_key(key) ==> key < self.superblock.block_count
                    && self.cache.blocks@[key].value.data@.len() == self.superblock.block_size,
            self.backed(),
        ensures
            self.wf(),
    {
        self.inodes.lemma_used_agree(&before.inodes, self.inodes.count as int);
        self.blocks.lemma_used_agree(&before.blocks, self.blocks.count as int);
        assert forall|index: int|
            self.inodes.count <= index < self.inodes.capacity() implies !#[trigger] self.inodes.bit(
            index,
        ) by {
            assert(!before.inodes.bit(index));
        }
        assert forall|index: int|
            self.blocks.count <= index < self.blocks.capacity() implies !#[trigger] self.blocks.bit(
            index,
        ) by {
            assert(!before.blocks.bit(index));
        }
    }

    /// Filesystems with the same device and geometry whose cache lines hold
    /// the same records, or whose cache differs only by lines that hold what
    /// the device stores, see the same records.
    pub proof fn lemma_same_lines(&self, before: &Self)
        requires
            self.superblock == before.superblock,
            self.device.contents() == before.device.contents(),
            forall|key: u64| #[trigger]
                self.cache.inodes@.contains_key(key) ==> Some(self.cache.inodes@[key].value)
                    == before.inode_view(key),
            forall|key: u64| #[trigger]
                before.cache.inodes@.contains_key(key) ==> self.cache.inodes@.contains_key(key),
            forall|key: u64| #[trigger]
                self.cache.blocks@.contains_key(key) ==> self.cache.blocks@[key].value.data@
                    == before.block_view(key),
            forall|key: u64| #[trigger]
                before.cache.blocks@.contains_key(key) ==> self.cache.blocks@.contains_key(key),
        ensures
            self.same_records(before),
    {
        assert forall|index: u64| #[trigger] self.block_view(index) == before.block_view(index) by {
            if self.cache.blocks@.contains_key(index) {
            } else {
                assert(!before.cache.blocks@.contains_key(index));
            }
        }
        assert forall|index: u64| #[trigger] self.inode_view(index) == before.inode_view(index) by {
            if self.cache.inodes@.contains_key(index) {
            } else {
                assert(!before.cache.inodes@.contains_key(index));
            }
        }
    }

    /// Returns block size of an existing filesystem on `device` by checking
    /// magic signature: the smallest of 512, 1024, 2048, 4096 and 8192 for
    /// which the two bytes at offset 0x38 of the superblock hold the
    /// signature, or `None` when there is none. `Io` when the device fails a
    /// probe before the signature is found.
    pub fn detect_existing(device: &mut D) -> (result: Result<Option<u32>, Error>)
        ensures
            final(device).contents() == old(device).contents(),
            match result {
                Ok(Some(block_size)) => exists|exponent: int|
                    {
                        &&& 9 <= exponent <= 13
                        &&& block_size == spec_block_size(exponent)
                        &&& spec_magic_at(old(device).contents(), block_size as u64)
                        &&& forall|smaller: int|
                            9 <= smaller < exponent ==> !spec_magic_at(
                                old(device).contents(),
                                #[trigger] spec_block_size(smaller),
                            )
                    },
                Ok(None) => forall|exponent: int|
                    9 <= exponent <= 13 ==> !spec_magic_at(
                        old(device).contents(),
                        #[trigger] spec_block_size(exponent),
                    ),
                Err(e) => e is Io,
            },
    {
        let mut exponent: u32 = 9;
        let mut block_size: u64 = 512;
        while exponent <= 13
            invariant
                9 <= exponent <= 14,
                exponent <= 13 ==> block_size == spec_block_size(exponent as int),
                device.contents() == old(device).contents(),
                forall|smaller: int|
                    9 <= smaller < exponent ==> !spec_magic_at(
                        old(device).contents(),
                        #[trigger] spec_block_size(smaller),
                    ),
            decreases 14 - exponent,
        {
            let probed = device.read_exact_at(block_size + MAGIC_OFFSET, 2);
            match probed {
                Ok(bytes) => {
                    if u16_from_le_bytes(bytes.as_slice()) == MAGIC_SIGNATURE {
                        return Ok(Some(block_size as u32));
                    }
                },
                Err(e) => {
                    return Err(Error::Io(e));
                },
            }
            exponent += 1;
            block_size = block_size * 2;
        }
        Ok(None)
    }

    /// Whether `self` is what mounting a device with `contents` gives: the
    /// stored superblock, the stored bitmaps, and nothing cached.
    pub open spec fn mounted_from(&self, contents: Seq<u8>, block_size: u32) -> bool {
        let inode_bytes = spec_size_in_bytes(self.inodes.count as nat);
        let block_bytes = spec_size_in_bytes(self.blocks.count as nat);
        &&& self.wf()
        &&& self.superblock.block_size == block_size
        &&& self.superblock.magic == MAGIC_SIGNATURE
        &&& self.device.contents() == contents
        &&& self.blocks.position + block_bytes <= contents.len()
        &&& self.superblock.stored_as(contents.subrange(block_size as int, block_size + 1024))
        &&& forall|index: int|
            0 <= index < self.inodes.count ==> #[trigger] self.inodes.bit(index)
                == crate::structs::bitmap::buffer_bit(
                contents.subrange(self.inodes.position as int, self.inodes.position + inode_bytes),
                index,
            )
        &&& forall|index: int|
            0 <= index < self.blocks.count ==> #[trigger] self.blocks.bit(index)
                == crate::structs::bitmap::buffer_bit(
                contents.subrange(self.blocks.position as int, self.blocks.position + block_bytes),
                index,
            )
        &&& self.cache.inodes@ == Map::<u64, CacheLine<Inode>>::empty()
        &&& self.cache.blocks@ == Map::<u64, CacheLine<Block>>::empty()
        &&& self.last_flush is None
    }

    /// Whether `superblock`, read from a device with `contents`, describes a
    /// filesystem with blocks of `block_size` bytes: the block size and the
    /// signature are right, every region offset fits in 64 bits, both
    /// bitmaps lie within the device, and the free counts match the bitmaps.
    pub open spec fn spec_valid_image(
        superblock: &Superblock,
        contents: Seq<u8>,
        block_size: u32,
    ) -> bool {
        let inode_bytes = spec_size_in_bytes(superblock.inode_count as nat);
        let block_bytes = spec_size_in_bytes(superblock.block_count as nat);
        let inode_bits = superblock.spec_bitmap_region_start();
        let block_bits = inode_bits + inode_bytes;
        &&& superblock.block_size == block_size
        &&& superblock.magic == MAGIC_SIGNATURE
        &&& superblock.wf()
        &&& superblock.inodes_free <= superblock.inode_count
        &&& superblock.blocks_free <= superblock.block_count
        &&& block_bytes <= usize::MAX && inode_bytes <= usize::MAX
        &&& block_bits + block_bytes <= contents.len()
        &&& spec_set_bits(
            contents.subrange(inode_bits, inode_bits + inode_bytes),
            superblock.inode_count as int,
        ) == superblock.inode_count - superblock.inodes_free
        &&& spec_set_bits(
            contents.subrange(block_bits, block_bits + block_bytes),
            superblock.block_count as int,
        ) == superblock.block_count - superblock.blocks_free
    }

    /// What was flushed is there after a mount: a filesystem that is mounted
    /// from the bytes that a forced flush left has the geometry, the counts
    /// and the allocation of the flushed one, and sees every record that the
    /// cache held as modified before the flush.
    pub proof fn lemma_persistence(&self, flushed: &Self, before: &Self)
        requires
            flushed.wf(),
            flushed.allocation_stored(),
            flushed.stores_modified(before),
            self.mounted_from(flushed.device.contents(), flushed.superblock.block_size),
        ensures
            self.superblock == flushed.superblock,
            forall|index: u64| #[trigger] self.inode_live(index) == flushed.inode_live(index),
            forall|index: u64| #[trigger] self.block_live(index) == flushed.block_live(index),
            forall|key: u64| #[trigger]
                before.cache.inodes@.contains_key(key) && before.cache.inodes@[key].modified
                    ==> self.inode_view(key) == Some(before.cache.inodes@[key].value),
            forall|key: u64| #[trigger]
                before.cache.blocks@.contains_key(key) && before.cache.blocks@[key].modified
                    ==> Block::spec_stored(self.device.contents(), &self.superblock, key) == Some(
                    before.cache.blocks@[key].value.data@,
                ) && self.block_view(key) == before.cache.blocks@[key].value.data@,
    {
        flushed.lemma_stored_image();
        flushed.superblock.lemma_round_trip(&self.superblock);
        let contents = flushed.device.contents();
        let block_size = flushed.superblock.block_size as int;
        assert(contents.subrange(block_size, block_size + SUPERBLOCK_SIZE)
            == flushed.superblock.spec_bytes());
        assert(self.superblock == flushed.superblock);
        assert forall|index: u64| #[trigger] self.inode_live(index) == flushed.inode_live(
            index,
        ) by {
            if index < self.superblock.inode_count {
                assert(self.inodes.bit(index as int) == flushed.inodes.bit(index as int));
            }
        }
        assert forall|index: u64| #[trigger] self.block_live(index) == flushed.block_live(
            index,
        ) by {
            if index < self.superblock.block_count {
                assert(self.blocks.bit(index as int) == flushed.blocks.bit(index as int));
            }
        }
    }

    /// Whether the lines of `self` that are known to be stored are those
    /// that were so in `before` or were modified there: a flush that
    /// succeeded wrote the modified lines and no others.
    pub open spec fn stores_written(&self, before: &Self) -> bool {
        &&& forall|key: u64| #[trigger]
            self.cache.inodes@.contains_key(key) && before.cache.inodes@.contains_key(key)
                ==> self.cache.inodes@[key].stored == (before.cache.inodes@[key].stored
                || before.cache.inodes@[key].modified)
        &&& forall|key: u64| #[trigger]
            self.cache.blocks@.contains_key(key) && before.cache.blocks@.contains_key(key)
                ==> self.cache.blocks@[key].stored == (before.cache.blocks@[key].stored
                || before.cache.blocks@[key].modified)
    }

    /// Whether the device is known to store every record that the cache
    /// holds: no line is modified, and none was cached without being read
    /// from the device or written to it.
    pub open spec fn shelved(&self) -> bool {
        &&& forall|key: u64| #[trigger]
            self.cache.inodes@.contains_key(key) ==> self.cache.inodes@[key].stored
        &&& forall|key: u64| #[trigger]
            self.cache.blocks@.contains_key(key) ==> self.cache.blocks@[key].stored
    }

    /// A flush that succeeds leaves every line stored that was modified or
    /// stored before it: where the cache held no line that was neither, the
    /// device stores every record that the cache holds afterwards.
    pub proof fn lemma_flush_shelves(&self, before: &Self)
        requires
            self.keeps_lines(before),
            self.stores_written(before),
            forall|key: u64| #[trigger]
                before.cache.inodes@.contains_key(key) ==> before.cache.inodes@[key].modified
                    || before.cache.inodes@[key].stored,
            forall|key: u64| #[trigger]
                before.cache.blocks@.contains_key(key) ==> before.cache.blocks@[key].modified
                    || before.cache.blocks@[key].stored,
        ensures
            self.shelved(),
    {
        assert forall|key: u64| #[trigger]
            self.cache.inodes@.contains_key(key) implies self.cache.inodes@[key].stored by {
            assert(before.cache.inodes@.contains_key(key));
        }
        assert forall|key: u64| #[trigger]
            self.cache.blocks@.contains_key(key) implies self.cache.blocks@[key].stored by {
            assert(before.cache.blocks@.contains_key(key));
        }
    }

    /// What the device stores is what a mount sees: a filesystem that is
    /// mounted from the bytes of one whose superblock, bitmaps and cached
    /// records the device stores has the same geometry, counts and
    /// allocation, and sees the same record under every index.
    pub proof fn lemma_mount_sees(&self, flushed: &Self)
        requires
            flushed.wf(),
            flushed.allocation_stored(),
            flushed.shelved(),
            self.mounted_from(flushed.device.contents(), flushed.superblock.block_size),
        ensures
            self.superblock == flushed.superblock,
            forall|index: u64| #[trigger] self.inode_live(index) == flushed.inode_live(index),
            forall|index: u64| #[trigger] self.block_live(index) == flushed.block_live(index),
            self.same_records(flushed),
    {
        self.lemma_persistence(flushed, flushed);
        assert forall|index: u64| #[trigger] self.inode_view(index) == flushed.inode_view(
            index,
        ) by {
            if flushed.cache.inodes@.contains_key(index) {
                assert(flushed.cache.inodes@[index].stored);
            }
        }
        assert forall|index: u64| #[trigger] self.block_view(index) == flushed.block_view(
            index,
        ) by {
            if flushed.cache.blocks@.contains_key(index) {
                assert(flushed.cache.blocks@[index].stored);
            }
        }
    }

    /// What the device stores is what a mount sees, record by record: a
    /// filesystem that is mounted from the bytes of one whose superblock and
    /// bitmaps the device stores has the same geometry, counts and
    /// allocation, and sees the same record under every index whose record
    /// is not cached or is known to be stored.
    pub proof fn lemma_mount_sees_stored(&self, flushed: &Self)
        requires
            flushed.wf(),
            flushed.allocation_stored(),
            self.mounted_from(flushed.device.contents(), flushed.superblock.block_size),
        ensures
            self.superblock == flushed.superblock,
            forall|index: u64| #[trigger] self.inode_live(index) == flushed.inode_live(index),
            forall|index: u64| #[trigger] self.block_live(index) == flushed.block_live(index),
            forall|index: u64|
                (flushed.cache.inodes@.contains_key(index) ==> flushed.cache.inodes@[index].stored)
                    ==> #[trigger] self.inode_view(index) == flushed.inode_view(index),
            forall|index: u64|
                (flushed.cache.blocks@.contains_key(index) ==> flushed.cache.blocks@[index].stored)
                    ==> #[trigger] self.block_view(index) == flushed.block_view(index),
    {
        self.lemma_persistence(flushed, self);
    }

    /// What a forced flush stores can be mounted: the stored superblock
    /// describes a filesystem, and the stored bitmaps hold the allocation.
    pub proof fn lemma_stored_image(&self)
        requires
            self.wf(),
            self.allocation_stored(),
        ensures
            Self::spec_valid_image(
                &self.superblock,
                self.device.contents(),
                self.superblock.block_size,
            ),
            self.superblock.stored_as(
                self.device.contents().subrange(
                    self.superblock.block_size as int,
                    self.superblock.block_size + SUPERBLOCK_SIZE,
                ),
            ),
            forall|index: int|
                0 <= index < self.inodes.count ==> #[trigger] self.inodes.bit(index)
                    == crate::structs::bitmap::buffer_bit(
                    self.device.contents().subrange(
                        self.inodes.position as int,
                        self.inodes.position + spec_size_in_bytes(self.inodes.count as nat),
                    ),
                    index,
                ),
            forall|index: int|
                0 <= index < self.blocks.count ==> #[trigger] self.blocks.bit(index)
                    == crate::structs::bitmap::buffer_bit(
                    self.device.contents().subrange(
                        self.blocks.position as int,
                        self.blocks.position + spec_size_in_bytes(self.blocks.count as nat),
                    ),
                    index,
                ),
    {
        self.superblock.lemma_round_trip(&self.superblock);
        self.inodes.lemma_content_exists();
        self.blocks.lemma_content_exists();
        self.inodes.lemma_capacity();
        self.blocks.lemma_capacity();
        self.inodes.lemma_stored_bits(self.inodes.count as int);
        self.blocks.lemma_stored_bits(self.blocks.count as int);
        self.inodes.lemma_used_bounds(self.inodes.count as int);
        self.blocks.lemma_used_bounds(self.blocks.count as int);
        self.superblock.lemma_regions_ordered();
    }

    /// Load filesystem from a block device: reads the superblock and both
    /// bitmaps. `Io` when the device fails a read. `InsufficientBytes` when
    /// what is stored is no filesystem with blocks of `block_size` bytes:
    /// the block size is not valid, the signature or the block size differs,
    /// the regions do not fit in 64 bits, or the free counts do not match
    /// the bitmaps.
    pub fn load(device: D, block_size: u32) -> (result: Result<Self, Error>)
        ensures
            match result {
                Ok(filesystem) => filesystem.mounted_from(device.contents(), block_size)
                    && Self::spec_valid_image(
                    &filesystem.superblock,
                    device.contents(),
                    block_size,
                ),
                Err(e) => e is Io || (e is InsufficientBytes && (!(is_power_of_two(
                    block_size as nat,
                ) && 512 <= block_size <= 8192) || (block_size + SUPERBLOCK_SIZE
                    <= device.contents().len() && forall|superblock: Superblock|
                    #[trigger] superblock.stored_as(
                        device.contents().subrange(
                            block_size as int,
                            block_size + SUPERBLOCK_SIZE,
                        ),
                    ) ==> !Self::spec_valid_image(&superblock, device.contents(), block_size)))),
            },
    {
        let mut device = device;
        let ghost contents = device.contents();
        if !valid_block_size(block_size) {
            return Err(Error::InsufficientBytes);
        }
        let superblock = match Superblock::load(&mut device, block_size) {
            Ok(superblock) => superblock,
            Err(e) => {
                return Err(e);
            },
        };
        proof {
            assert forall|other: Superblock|
                #[trigger] other.stored_as(
                    contents.subrange(block_size as int, block_size + SUPERBLOCK_SIZE),
                ) implies other == superblock by {
                assert(other.__padding_1 =~= superblock.__padding_1);
                assert(other.__padding_2 =~= superblock.__padding_2);
            }
        }
        if superblock.block_size != block_size || superblock.magic != MAGIC_SIGNATURE
            || superblock.inode_count > MAX_COUNT || superblock.block_count > MAX_COUNT
            || superblock.inodes_free > superblock.inode_count || superblock.blocks_free
            > superblock.block_count {
            return Err(Error::InsufficientBytes);
        }
        if layout_end(&superblock) > u64::MAX as u128 {
            return Err(Error::InsufficientBytes);
        }
        if size_in_bytes(superblock.inode_count) > usize::MAX as u64 || size_in_bytes(
            superblock.block_count,
        ) > usize::MAX as u64 {
            return Err(Error::InsufficientBytes);
        }
        let mut inodes = Bitmap::<Inode>::new(&superblock);
        let mut blocks = Bitmap::<Block>::new(&superblock);
        let ghost fresh_inodes = inodes;
        let ghost fresh_blocks = blocks;
        if let Err(e) = inodes.load(&mut device) {
            return Err(e);
        }
        if let Err(e) = blocks.load(&mut device) {
            return Err(e);
        }
        proof {
            fresh_inodes.lemma_capacity();
            fresh_blocks.lemma_capacity();
            inodes.lemma_loaded_bits(
                &fresh_inodes,
                contents.subrange(
                    inodes.position as int,
                    inodes.position + spec_size_in_bytes(inodes.count as nat),
                ),
                inodes.count as int,
            );
            blocks.lemma_loaded_bits(
                &fresh_blocks,
                contents.subrange(
                    blocks.position as int,
                    blocks.position + spec_size_in_bytes(blocks.count as nat),
                ),
                blocks.count as int,
            );
        }
        if inodes.count_used() != superblock.inode_count - superblock.inodes_free
            || blocks.count_used() != superblock.block_count - superblock.blocks_free {
            return Err(Error::InsufficientBytes);
        }
        let filesystem = Self {
            superblock,
            inodes,
            blocks,
            device,
            cache: Cache::new(),
            last_flush: None,
            clock: clock_start(),
        };
        proof {
            assert(filesystem.cache.inodes@.dom() =~= Set::empty());
            assert(filesystem.cache.blocks@.dom() =~= Set::empty());
        }
        Ok(filesystem)
    }

    /// Formats `device`: lays out `capacity` bytes in blocks of `block_size`
    /// bytes, with every inode and block free and nothing cached. Nothing is
    /// written until the first flush.
    pub fn new(device: D, capacity: u64, block_size: u32) -> (filesystem: Self)
        requires
            formattable(capacity, block_size),
            512 <= block_size <= 8192,
            capacity <= usize::MAX,
        ensures
            filesystem.wf(),
            filesystem.superblock.formatted_for(capacity, block_size),
            filesystem.device == device,
            filesystem.last_flush is None,
            filesystem.cache.len() == 0,
            forall|index: u64| !filesystem.inode_live(index) && !filesystem.block_live(index),
    {
        let superblock = Superblock::new(capacity, block_size);
        proof {
            lemma_size_in_bytes(superblock.inode_count as nat);
            lemma_size_in_bytes(superblock.block_count as nat);
        }
        let inodes = Bitmap::<Inode>::new(&superblock);
        let blocks = Bitmap::<Block>::new(&superblock);
        let filesystem = Self {
            superblock,
            inodes,
            blocks,
            device,
            cache: Cache::new(),
            last_flush: None,
            clock: clock_start(),
        };
        proof {
            filesystem.inodes.lemma_capacity();
            filesystem.blocks.lemma_capacity();
            assert(filesystem.cache.inodes@.dom() =~= Set::empty());
            assert(filesystem.cache.blocks@.dom() =~= Set::empty());
        }
        filesystem
    }
}

} // verus!
