//! A cursor over the payload bytes of a chain of padded blocks.

use vstd::prelude::*;
use vstd::arithmetic::div_mod::{lemma_fundamental_div_mod, lemma_fundamental_div_mod_converse};
use crate::filesystem::Filesystem;
use crate::filesystem::device::BlockDevice;
use crate::filetypes::BlockCursor;

verus! {

/// The block and the byte within the block at which payload byte `offset`
/// lies, for blocks with `padded` payload bytes after `front` reserved bytes.
pub open spec fn spec_place(offset: int, padded: int, front: int) -> (int, int) {
    (offset / padded, front + offset % padded)
}

impl BlockCursor {
    /// Payload bytes per block.
    pub open spec fn padded_block(&self) -> int {
        self.block_size - self.block_padding_front - self.block_padding_back
    }

    /// Every block has payload, and the cursor is before the back padding.
    pub open spec fn wf(&self) -> bool {
        &&& self.block_padding_front + self.block_padding_back < self.block_size
        &&& self.current_byte + self.block_padding_back < self.block_size
    }

    /// The cursor is not inside the front padding.
    pub open spec fn aligned(&self) -> bool {
        self.current_byte >= self.block_padding_front
    }

    /// Logical offset of the cursor in the payload stream. It is negative
    /// only for a cursor inside the front padding of block 0.
    pub open spec fn offset(&self) -> int {
        self.current_block * self.padded_block() + self.current_byte
            - self.block_padding_front
    }

    /// Whether `self` is `before` moved to payload offset `target`.
    pub open spec fn placed(&self, before: &Self, target: int) -> bool {
        &&& self.block_size == before.block_size
        &&& self.block_padding_front == before.block_padding_front
        &&& self.block_padding_back == before.block_padding_back
        &&& (self.current_block as int, self.current_byte as int) == spec_place(
            target,
            before.padded_block(),
            before.block_padding_front as int,
        )
    }

    /// A cursor placed at an offset is well formed, aligned, and at that offset.
    pub proof fn lemma_placed(&self, before: &Self, target: int)
        requires
            before.block_padding_front + before.block_padding_back < before.block_size,
            0 <= target,
            self.placed(before, target),
        ensures
            self.wf(),
            self.aligned(),
            self.offset() == target,
    {
        lemma_fundamental_div_mod(target, before.padded_block());
        assert(self.current_block * self.padded_block() == self.padded_block() * (target
            / before.padded_block())) by (nonlinear_arith)
            requires
                self.current_block == target / before.padded_block(),
        ;
    }

    /// An aligned, well-formed cursor is placed at its own offset.
    pub proof fn lemma_offset(&self)
        requires
            self.wf(),
            self.aligned(),
        ensures
            self.offset() >= 0,
            self.placed(self, self.offset()),
    {
        let padded = self.padded_block();
        assert(self.current_block * padded >= 0) by (nonlinear_arith)
            requires
                padded > 0,
                self.current_block >= 0,
        ;
        lemma_fundamental_div_mod_converse(
            self.offset(),
            padded,
            self.current_block as int,
            self.current_byte - self.block_padding_front,
        );
    }

    /// Regressing by as many bytes as the cursor advanced returns it to
    /// where it was.
    pub proof fn lemma_advance_regress(&self, advanced: &Self, returned: &Self, bytes: u64)
        requires
            self.wf(),
            self.aligned(),
            advanced.placed(self, self.offset() + bytes),
            returned.placed(
                advanced,
                if bytes <= advanced.offset() {
                    advanced.offset() - bytes
                } else {
                    0
                },
            ),
        ensures
            *returned == *self,
    {
        self.lemma_offset();
        advanced.lemma_placed(self, self.offset() + bytes);
    }

    /// A cursor at the start of the payload of block 0 of `fs`.
    pub fn new<D: BlockDevice>(fs: &Filesystem<D>, padding: (u32, u32)) -> (cursor: Self)
        requires
            padding.0 + padding.1 < fs.superblock.block_size,
        ensures
            cursor.wf(),
            cursor.aligned(),
            cursor.offset() == 0,
            cursor.block_size == fs.superblock.block_size,
            cursor.block_padding_front == padding.0,
            cursor.block_padding_back == padding.1,
            cursor.current_block == 0,
            cursor.current_byte == padding.0,
    {
        Self {
            block_size: fs.superblock.block_size as usize,
            block_padding_front: padding.0 as usize,
            block_padding_back: padding.1 as usize,
            current_block: 0,
            current_byte: padding.0 as usize,
        }
    }

    /// A cursor at byte `starting_byte` of block `starting_block` of `fs`.
    pub fn from<D: BlockDevice>(
        fs: &Filesystem<D>,
        starting_block: u64,
        starting_byte: u32,
        padding: (u32, u32),
    ) -> (cursor: Self)
        requires
            padding.0 + padding.1 < fs.superblock.block_size,
            starting_byte + padding.1 < fs.superblock.block_size,
        ensures
            cursor.wf(),
            cursor.block_size == fs.superblock.block_size,
            cursor.block_padding_front == padding.0,
            cursor.block_padding_back == padding.1,
            cursor.current_block == starting_block,
            cursor.current_byte == starting_byte,
    {
        Self {
            block_size: fs.superblock.block_size as usize,
            block_padding_front: padding.0 as usize,
            block_padding_back: padding.1 as usize,
            current_block: starting_block,
            current_byte: starting_byte as usize,
        }
    }

    /// Logical offset of the cursor.
    pub fn current(&self) -> (offset: u64)
        requires
            self.wf(),
            self.aligned(),
            self.offset() <= u64::MAX,
        ensures
            offset == self.offset(),
    {
        let padded_block = (self.block_size - self.block_padding_front
            - self.block_padding_back) as u64;
        let padded_byte = (self.current_byte - self.block_padding_front) as u64;
        assert(padded_block * self.current_block == self.current_block * self.padded_block())
            by (nonlinear_arith)
            requires
                padded_block == self.padded_block(),
        ;
        assert(self.current_block * self.padded_block() >= 0) by (nonlinear_arith)
            requires
                self.padded_block() > 0,
        ;
        padded_block * self.current_block + padded_byte
    }

    /// Moves forward by `bytes` payload bytes, across as many blocks as
    /// needed, and returns the new offset.
    pub fn advance(&mut self, bytes: u64) -> (offset: u64)
        requires
            old(self).wf(),
            old(self).current_byte + bytes >= old(self).block_padding_front,
            old(self).offset() + bytes <= u64::MAX,
        ensures
            final(self).placed(old(self), old(self).offset() + bytes),
            final(self).wf(),
            final(self).aligned(),
            final(self).offset() == old(self).offset() + bytes,
            offset == old(self).offset() + bytes,
    {
        let padded_block = self.block_size - self.block_padding_front - self.block_padding_back;
        let remaining_bytes = self.block_size - (self.current_byte + self.block_padding_back);
        let ghost target = self.offset() + bytes;
        let ghost padded = self.padded_block();
        proof {
            assert(self.current_block * padded >= 0) by (nonlinear_arith)
                requires
                    padded > 0,
                    self.current_block >= 0,
            ;
        }
        if bytes < remaining_bytes as u64 {
            self.current_byte += bytes as usize;
            proof {
                lemma_fundamental_div_mod_converse(
                    target,
                    padded,
                    self.current_block as int,
                    self.current_byte - self.block_padding_front,
                );
                self.lemma_placed(old(self), target);
            }
            return self.current();
        }
        let advance_blocks = (bytes - remaining_bytes as u64) / (padded_block as u64) + 1;
        let advance_bytes = (bytes - remaining_bytes as u64) % (padded_block as u64);
        proof {
            let rest = bytes - remaining_bytes;
            lemma_fundamental_div_mod(rest, padded);
            assert((self.current_block + advance_blocks) * padded == self.current_block * padded
                + padded * (rest / padded) + padded) by (nonlinear_arith)
                requires
                    advance_blocks == rest / padded + 1,
            ;
            assert((self.current_block + advance_blocks) * padded <= target);
            assert(self.current_block + advance_blocks <= target) by (nonlinear_arith)
                requires
                    (self.current_block + advance_blocks) * padded <= target,
                    padded >= 1,
                    self.current_block + advance_blocks >= 0,
            ;
            lemma_fundamental_div_mod_converse(
                target,
                padded,
                self.current_block + advance_blocks,
                advance_bytes as int,
            );
        }
        self.current_block += advance_blocks;
        self.current_byte = self.block_padding_front + advance_bytes as usize;
        proof {
            self.lemma_placed(old(self), target);
        }
        self.current()
    }

    /// Moves back by `bytes` payload bytes, stopping at the start of the
    /// payload of block 0, and returns the new offset.
    pub fn regress(&mut self, bytes: u64) -> (offset: u64)
        requires
            old(self).wf(),
            old(self).aligned(),
            old(self).offset() <= u64::MAX,
        ensures
            final(self).placed(
                old(self),
                if bytes <= old(self).offset() {
                    old(self).offset() - bytes
                } else {
                    0
                },
            ),
            final(self).wf(),
            final(self).aligned(),
            offset == final(self).offset(),
            offset == (if bytes <= old(self).offset() {
                old(self).offset() - bytes
            } else {
                0
            }),
    {
        let position = self.current();
        let target = if bytes <= position {
            position - bytes
        } else {
            0
        };
        let padded_block = (self.block_size - self.block_padding_front
            - self.block_padding_back) as u64;
        proof {
            lemma_fundamental_div_mod(target as int, padded_block as int);
        }
        self.current_block = target / padded_block;
        self.current_byte = self.block_padding_front + (target % padded_block) as usize;
        proof {
            self.lemma_placed(old(self), target as int);
        }
        target
    }

    /// Moves to payload offset `bytes` and returns it.
    pub fn set(&mut self, bytes: u64) -> (offset: u64)
        requires
            old(self).block_padding_front + old(self).block_padding_back < old(self).block_size,
        ensures
            final(self).placed(old(self), bytes as int),
            final(self).wf(),
            final(self).aligned(),
            final(self).offset() == bytes,
            offset == bytes,
    {
        self.reset();
        self.advance(bytes)
    }

    /// Moves to the start of the payload of block 0.
    pub fn reset(&mut self)
        requires
            old(self).block_padding_front + old(self).block_padding_back < old(self).block_size,
        ensures
            final(self).placed(old(self), 0),
            final(self).wf(),
            final(self).aligned(),
            final(self).offset() == 0,
            final(self).current_block == 0,
            final(self).current_byte == old(self).block_padding_front,
    {
        self.current_block = 0;
        self.current_byte = self.block_padding_front;
    }

    /// Index in the chain of the block under the cursor.
    pub fn block(&self) -> (block: u64)
        ensures
            block == self.current_block,
    {
        self.current_block
    }

    /// Byte within the block under the cursor, front padding included.
    pub fn byte(&self) -> (byte: usize)
        ensures
            byte == self.current_byte,
    {
        self.current_byte
    }

    /// Byte within the payload of the block under the cursor.
    pub fn padded_byte(&self) -> (byte: usize)
        requires
            self.aligned(),
        ensures
            byte == self.current_byte - self.block_padding_front,
    {
        self.current_byte - self.block_padding_front
    }

    /// Logical byte offset in the data stream, which excludes the padding of
    /// all traversed blocks.
    pub fn position(&self) -> (offset: u64)
        requires
            self.wf(),
            self.aligned(),
            self.offset() <= u64::MAX,
        ensures
            offset == self.offset(),
    {
        if self.current_block == 0 {
            self.padded_byte() as u64
        } else {
            self.current()
        }
    }
}

} // verus!
