//! Where the records lie on the device, and what a write to one of them
//! leaves untouched.

use vstd::prelude::*;
use crate::math::is_power_of_two;
use crate::structs::{Block, Inode, Superblock, INODE_SIZE, SUPERBLOCK_SIZE};
use crate::structs::bitmap::spec_size_in_bytes;

verus! {

/// Whether `after` differs from `before` at most in the `length` bytes from `position` on.
pub open spec fn changed_within(before: Seq<u8>, after: Seq<u8>, position: int, length: int)
    -> bool {
    &&& after.len() == before.len()
    &&& forall|at: int|
        0 <= at < before.len() && !(position <= at < position + length) ==> after[at]
            == before[at]
}

/// A power of two that is at least 128 is a multiple of 128.
pub proof fn lemma_block_size_multiple(block_size: nat)
    requires
        is_power_of_two(block_size),
        block_size >= 128,
    ensures
        block_size % 128 == 0,
{
    reveal_with_fuel(is_power_of_two, 9);
}

/// Every inode below the inode count has a position, and its record ends
/// before the block region.
pub proof fn lemma_inode_position(superblock: &Superblock, index: u64)
    requires
        is_power_of_two(superblock.block_size as nat),
        superblock.block_size >= 128,
    ensures
        index < superblock.inode_count ==> superblock.spec_inode_position(index) is Some,
        superblock.spec_inode_position(index) matches Some(position) ==> position + INODE_SIZE
            <= superblock.spec_block_region_start() && position
            >= superblock.spec_inode_region_start(),
{
    superblock.lemma_regions_ordered();
    lemma_block_size_multiple(superblock.block_size as nat);
    let block_size = superblock.block_size as int;
    let start = superblock.spec_inode_region_start();
    let limit = superblock.spec_block_region_start();
    if superblock.spec_inode_position(index) is Some {
        let position = start + index * 128;
        assert(start % 128 == 0 && limit % 128 == 0) by {
            vstd::arithmetic::div_mod::lemma_mod_mod(start, 128, block_size / 128);
            vstd::arithmetic::div_mod::lemma_mod_mod(limit, 128, block_size / 128);
            assert(128 * (block_size / 128) == block_size);
        }
        assert(position % 128 == 0);
        assert(position < limit);
    }
}

/// A change within one inode's record leaves every other inode's record and
/// every block as stored.
pub proof fn lemma_inode_write(superblock: &Superblock, before: Seq<u8>, after: Seq<u8>, index: u64)
    requires
        is_power_of_two(superblock.block_size as nat),
        superblock.block_size >= 128,
        superblock.spec_inode_position(index) is Some,
        changed_within(before, after, superblock.spec_inode_position(index).unwrap(), 128),
    ensures
        forall|other: u64|
            other != index ==> #[trigger] Inode::spec_stored(after, superblock, other)
                == Inode::spec_stored(before, superblock, other),
        forall|other: u64| #[trigger]
            Block::spec_stored(after, superblock, other) == Block::spec_stored(
                before,
                superblock,
                other,
            ),
{
    superblock.lemma_regions_ordered();
    lemma_inode_position(superblock, index);
    let position = superblock.spec_inode_position(index).unwrap();
    assert forall|other: u64| other != index implies #[trigger] Inode::spec_stored(
        after,
        superblock,
        other,
    ) == Inode::spec_stored(before, superblock, other) by {
        if let Some(place) = superblock.spec_inode_position(other) {
            if place + INODE_SIZE <= before.len() {
                assert(after.subrange(place, place + 128) =~= before.subrange(place, place + 128));
            }
        }
    }
    assert forall|other: u64| #[trigger]
        Block::spec_stored(after, superblock, other) == Block::spec_stored(
            before,
            superblock,
            other,
        ) by {
        if let Some(place) = superblock.spec_block_position(other) {
            assert(other * superblock.block_size >= 0) by (nonlinear_arith);
            if place + superblock.block_size <= before.len() {
                assert(after.subrange(place, place + superblock.block_size) =~= before.subrange(
                    place,
                    place + superblock.block_size,
                ));
            }
        }
    }
}

/// A change within one block leaves every other block and every inode's
/// record as stored.
pub proof fn lemma_block_write(superblock: &Superblock, before: Seq<u8>, after: Seq<u8>, index: u64)
    requires
        is_power_of_two(superblock.block_size as nat),
        superblock.block_size >= 128,
        superblock.spec_block_position(index) is Some,
        changed_within(
            before,
            after,
            superblock.spec_block_position(index).unwrap(),
            superblock.block_size as int,
        ),
    ensures
        forall|other: u64|
            other != index ==> #[trigger] Block::spec_stored(after, superblock, other)
                == Block::spec_stored(before, superblock, other),
        forall|other: u64| #[trigger]
            Inode::spec_stored(after, superblock, other) == Inode::spec_stored(
                before,
                superblock,
                other,
            ),
{
    superblock.lemma_regions_ordered();
    let block_size = superblock.block_size as int;
    let position = superblock.spec_block_position(index).unwrap();
    assert(index * block_size >= 0) by (nonlinear_arith)
        requires
            block_size >= 0,
    ;
    assert forall|other: u64| other != index implies #[trigger] Block::spec_stored(
        after,
        superblock,
        other,
    ) == Block::spec_stored(before, superblock, other) by {
        if let Some(place) = superblock.spec_block_position(other) {
            assert(other < index ==> other * block_size + block_size <= index * block_size)
                by (nonlinear_arith)
                requires
                    block_size >= 0,
            ;
            assert(other > index ==> index * block_size + block_size <= other * block_size)
                by (nonlinear_arith)
                requires
                    block_size >= 0,
            ;
            if place + block_size <= before.len() {
                assert(after.subrange(place, place + block_size) =~= before.subrange(
                    place,
                    place + block_size,
                ));
            }
        }
    }
    assert forall|other: u64| #[trigger]
        Inode::spec_stored(after, superblock, other) == Inode::spec_stored(
            before,
            superblock,
            other,
        ) by {
        lemma_inode_position(superblock, other);
        if let Some(place) = superblock.spec_inode_position(other) {
            if place + INODE_SIZE <= before.len() {
                assert(after.subrange(place, place + 128) =~= before.subrange(place, place + 128));
            }
        }
    }
}

/// A change before the inode region leaves every inode's record and every
/// block as stored.
pub proof fn lemma_head_write(
    superblock: &Superblock,
    before: Seq<u8>,
    after: Seq<u8>,
    position: int,
    length: int,
)
    requires
        is_power_of_two(superblock.block_size as nat),
        superblock.block_size >= 128,
        position + length <= superblock.spec_inode_region_start(),
        changed_within(before, after, position, length),
    ensures
        forall|other: u64| #[trigger]
            Block::spec_stored(after, superblock, other) == Block::spec_stored(
                before,
                superblock,
                other,
            ),
        forall|other: u64| #[trigger]
            Inode::spec_stored(after, superblock, other) == Inode::spec_stored(
                before,
                superblock,
                other,
            ),
{
    superblock.lemma_regions_ordered();
    let block_size = superblock.block_size as int;
    assert forall|other: u64| #[trigger]
        Block::spec_stored(after, superblock, other) == Block::spec_stored(
            before,
            superblock,
            other,
        ) by {
        if let Some(place) = superblock.spec_block_position(other) {
            assert(other * block_size >= 0) by (nonlinear_arith)
                requires
                    block_size >= 0,
            ;
            if place + block_size <= before.len() {
                assert(after.subrange(place, place + block_size) =~= before.subrange(
                    place,
                    place + block_size,
                ));
            }
        }
    }
    assert forall|other: u64| #[trigger]
        Inode::spec_stored(after, superblock, other) == Inode::spec_stored(
            before,
            superblock,
            other,
        ) by {
        if let Some(place) = superblock.spec_inode_position(other) {
            if place + INODE_SIZE <= before.len() {
                assert(after.subrange(place, place + 128) =~= before.subrange(place, place + 128));
            }
        }
    }
}

/// A set of indexes below `limit` has at most `limit` elements.
pub proof fn lemma_bounded_keys(keys: Set<u64>, limit: u64)
    requires
        keys.finite(),
        forall|key: u64| keys.contains(key) ==> key < limit,
    ensures
        keys.len() <= limit,
    decreases limit,
{
    if limit == 0 {
        assert(keys =~= Set::empty());
    } else {
        let last = (limit - 1) as u64;
        let rest = keys.remove(last);
        lemma_bounded_keys(rest, last);
        if keys.contains(last) {
            assert(keys =~= rest.insert(last));
        } else {
            assert(keys =~= rest);
        }
    }
}

} // verus!
