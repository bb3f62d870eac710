//! Data blocks and their transfer to and from the device.

use vstd::prelude::*;
use vstd::slice::slice_subrange;
use crate::error::Error;
use crate::filesystem::Filesystem;
use crate::filesystem::device::{BlockDevice, overwritten};
use crate::filetypes::helpers::{empty_block, spec_empty_block};
use crate::bytes::zeros;
use crate::structs::{Block, Superblock};

verus! {

impl Block {
    /// The bytes of block `index` that `contents` store, when the block lies
    /// within the block region and within `contents`.
    pub open spec fn spec_stored(contents: Seq<u8>, superblock: &Superblock, index: u64) -> Option<
        Seq<u8>,
    > {
        match superblock.spec_block_position(index) {
            Some(position) => if position + superblock.block_size <= contents.len() {
                Some(contents.subrange(position, position + superblock.block_size))
            } else {
                None
            },
            None => None,
        }
    }

    /// Allocates the lowest free block and returns it with zeroed bytes.
    /// `OutOfMemory`, with nothing changed, when no block is free.
    pub fn new<D: BlockDevice>(fs: &mut Filesystem<D>) -> (result: Result<Self, Error>)
        requires
            old(fs).wf(),
        ensures
            final(fs).wf(),
            match old(fs).spec_free_block() {
                Some(index) => {
                    &&& final(fs).with_block(old(fs), index, true)
                    &&& match result {
                        Ok(block) => block.index == index && block.data@ == zeros(
                            old(fs).superblock.block_size as nat,
                        ),
                        Err(e) => e is Io,
                    }
                },
                None => {
                    &&& result matches Err(e) && e is OutOfMemory
                    &&& final(fs).unchanged_from(old(fs))
                },
            },
    {
        let index = match fs.acquire_block() {
            Ok(index) => index,
            Err(e) => {
                return Err(e);
            },
        };
        let data = vec![0u8; fs.superblock.block_size as usize];
        assert(data@ =~= zeros(old(fs).superblock.block_size as nat));
        Ok(Self { index, data })
    }

    /// An empty block for index `index`: no successor and a zeroed payload.
    pub fn with_index<D: BlockDevice>(fs: &Filesystem<D>, index: u64) -> (result: Result<
        Self,
        Error,
    >)
        requires
            fs.wf(),
        ensures
            result matches Ok(block) && block.index == index && block.data@ == spec_empty_block(
                fs.superblock.block_size as nat,
            ),
    {
        Ok(Self { index, data: empty_block(fs.superblock.block_size) })
    }

    /// Write bytes to block and return ones exceeding Block's capacity: the
    /// bytes that fit between `position` and the end of the block are copied
    /// there, and the rest of `data` is returned. `OutOfBounds` when
    /// `position` is beyond the end of the block.
    pub fn write_bytes<'a>(&mut self, position: usize, data: &'a [u8]) -> (result: Result<
        &'a [u8],
        Error,
    >)
        ensures
            final(self).index == old(self).index,
            match result {
                Ok(rest) => {
                    let room = old(self).data@.len() - position;
                    let fits = if data@.len() <= room {
                        data@.len() as int
                    } else {
                        room
                    };
                    &&& position <= old(self).data@.len()
                    &&& final(self).data@ == overwritten(
                        old(self).data@,
                        position as int,
                        data@.subrange(0, fits),
                    )
                    &&& rest@ == data@.subrange(fits, data@.len() as int)
                },
                Err(e) => {
                    &&& e is OutOfBounds
                    &&& position > old(self).data@.len()
                    &&& final(self).data@ == old(self).data@
                },
            },
    {
        let capacity = self.data.len();
        if position > capacity {
            return Err(Error::OutOfBounds);
        }
        let room = capacity - position;
        let fits = if data.len() <= room {
            data.len()
        } else {
            room
        };
        let mut copied: usize = 0;
        while copied < fits
            invariant
                copied <= fits,
                fits <= data@.len(),
                position + fits <= capacity,
                capacity == self.data@.len(),
                self.data@.len() == old(self).data@.len(),
                self.index == old(self).index,
                forall|at: int|
                    0 <= at < self.data@.len() ==> self.data@[at] == (if position <= at < position
                        + copied {
                        data@[at - position]
                    } else {
                        old(self).data@[at]
                    }),
            decreases fits - copied,
        {
            self.data[position + copied] = data[copied];
            copied += 1;
        }
        assert(self.data@ =~= overwritten(
            old(self).data@,
            position as int,
            data@.subrange(0, fits as int),
        ));
        Ok(slice_subrange(data, fits, data.len()))
    }

    /// Whether two blocks have the same index and bytes.
    pub fn same_as(&self, other: &Block) -> (same: bool)
        ensures
            same == (self.index == other.index && self.data@ == other.data@),
    {
        if self.index != other.index || self.data.len() != other.data.len() {
            return false;
        }
        let length = self.data.len();
        let mut at: usize = 0;
        while at < length
            invariant
                at <= length,
                length == self.data@.len(),
                length == other.data@.len(),
                forall|before: int| 0 <= before < at ==> self.data@[before] == other.data@[before],
            decreases length - at,
        {
            if self.data[at] != other.data[at] {
                return false;
            }
            at += 1;
        }
        assert(self.data@ =~= other.data@);
        true
    }

    /// Copies the block.
    pub fn duplicate(&self) -> (copy: Block)
        ensures
            copy.index == self.index,
            copy.data@ == self.data@,
    {
        Block { index: self.index, data: self.data.clone() }
    }

    /// Reads block `index` from the device.
    pub fn load<D: BlockDevice>(block_device: &mut D, superblock: &Superblock, index: u64) -> (result:
        Result<Block, Error>)
        requires
            superblock.wf(),
        ensures
            final(block_device).contents() == old(block_device).contents(),
            match result {
                Ok(block) => block.index == index && Some(block.data@) == Block::spec_stored(
                    old(block_device).contents(),
                    superblock,
                    index,
                ),
                Err(e) => {
                    ||| e is OutOfBounds && index >= superblock.block_count
                    ||| e is Io && index < superblock.block_count
                },
            },
    {
        let position = match superblock.block_position(index) {
            Ok(position) => position,
            Err(e) => {
                return Err(e);
            },
        };
        match block_device.read_exact_at(position, superblock.block_size as usize) {
            Ok(data) => Ok(Block { index, data }),
            Err(e) => Err(Error::Io(e)),
        }
    }

    /// Writes the block's bytes at the position of its index.
    pub fn flush<D: BlockDevice>(&self, block_device: &mut D, superblock: &Superblock) -> (result:
        Result<(), Error>)
        requires
            superblock.wf(),
        ensures
            final(block_device).contents().len() == old(block_device).contents().len(),
            match superblock.spec_block_position(self.index) {
                Some(position) => {
                    &&& forall|at: int|
                        0 <= at < old(block_device).contents().len() && !(position <= at
                            < position + self.data@.len()) ==> final(block_device).contents()[at]
                            == old(block_device).contents()[at]
                    &&& match result {
                        Ok(_) => position + self.data@.len() <= old(block_device).contents().len()
                            && final(block_device).contents() == overwritten(
                            old(block_device).contents(),
                            position,
                            self.data@,
                        ),
                        Err(e) => e is Io,
                    }
                },
                None => {
                    &&& result matches Err(e) && e is OutOfBounds
                    &&& final(block_device).contents() == old(block_device).contents()
                },
            },
    {
        let position = match superblock.block_position(self.index) {
            Ok(position) => position,
            Err(e) => {
                return Err(e);
            },
        };
        match block_device.write_all_at(position, self.data.as_slice()) {
            Ok(_) => Ok(()),
            Err(e) => Err(Error::Io(e)),
        }
    }
}

} // verus!
