//! The 128-byte inode record.

use vstd::prelude::*;
use vstd::bytes::{spec_u64_from_le_bytes, spec_u64_to_le_bytes, u64_from_le_bytes, u64_to_le_bytes,
    lemma_auto_spec_u64_to_from_le_bytes};
use crate::bytes::{spec_u16_from_le_bytes, spec_u16_to_le_bytes, spec_u32_from_le_bytes,
    spec_u32_to_le_bytes, u16_from_le_bytes, u16_to_le_bytes, u32_from_le_bytes, u32_to_le_bytes,
    lemma_auto_spec_u16_to_from_le_bytes, lemma_auto_spec_u32_to_from_le_bytes};
use vstd::slice::slice_subrange;
use crate::bytes::zeros;
use crate::error::Error;
use crate::filesystem::device::{BlockDevice, overwritten};
use crate::structs::{FileAttributes, FileType, Inode, Superblock, INODE_SIZE};

verus! {

impl FileType {
    /// The byte that stores this kind.
    pub open spec fn spec_code(&self) -> u8 {
        match self {
            FileType::NamedPipe => 0,
            FileType::CharDevice => 1,
            FileType::BlockDevice => 2,
            FileType::Directory => 3,
            FileType::RegularFile => 4,
            FileType::Symlink => 5,
            FileType::Socket => 6,
        }
    }

    /// The kind that a byte stores, if it stores one.
    pub open spec fn spec_from_code(code: u8) -> Option<FileType> {
        match code {
            0 => Some(FileType::NamedPipe),
            1 => Some(FileType::CharDevice),
            2 => Some(FileType::BlockDevice),
            3 => Some(FileType::Directory),
            4 => Some(FileType::RegularFile),
            5 => Some(FileType::Symlink),
            6 => Some(FileType::Socket),
            _ => None,
        }
    }

    /// Computes `spec_code`.
    pub fn code(&self) -> (code: u8)
        ensures
            code == self.spec_code(),
            FileType::spec_from_code(code) == Some(*self),
    {
        match self {
            FileType::NamedPipe => 0,
            FileType::CharDevice => 1,
            FileType::BlockDevice => 2,
            FileType::Directory => 3,
            FileType::RegularFile => 4,
            FileType::Symlink => 5,
            FileType::Socket => 6,
        }
    }

    /// Computes `spec_from_code`.
    pub fn from_code(code: u8) -> (kind: Option<FileType>)
        ensures
            kind == FileType::spec_from_code(code),
    {
        match code {
            0 => Some(FileType::NamedPipe),
            1 => Some(FileType::CharDevice),
            2 => Some(FileType::BlockDevice),
            3 => Some(FileType::Directory),
            4 => Some(FileType::RegularFile),
            5 => Some(FileType::Symlink),
            6 => Some(FileType::Socket),
            _ => None,
        }
    }
}

impl Inode {
    /// The record as stored: every field little-endian in declared order,
    /// the kind as one byte, and five unused bytes before the block pointers.
    pub open spec fn spec_bytes(&self) -> Seq<u8> {
        spec_u64_to_le_bytes(self.index) + spec_u16_to_le_bytes(self.mode) + seq![
            self.kind.spec_code(),
        ] + spec_u64_to_le_bytes(self.size) + spec_u32_to_le_bytes(self.uid)
            + spec_u32_to_le_bytes(self.gid) + spec_u64_to_le_bytes(self.atime)
            + spec_u64_to_le_bytes(self.ctime) + spec_u64_to_le_bytes(self.mtime)
            + spec_u64_to_le_bytes(self.dtime) + spec_u64_to_le_bytes(self.block_count)
            + spec_u64_to_le_bytes(self.metadata[0]) + spec_u64_to_le_bytes(self.metadata[1])
            + spec_u64_to_le_bytes(self.metadata[2]) + spec_u64_to_le_bytes(self.metadata[3])
            + spec_u64_to_le_bytes(self.metadata[4]) + zeros(5) + spec_u64_to_le_bytes(
            self.first_block,
        ) + spec_u64_to_le_bytes(self.last_block)
    }

    /// The record that `bytes` store, when there are at least 128 of them and
    /// the kind byte names a kind.
    pub open spec fn spec_from_bytes(bytes: Seq<u8>) -> Option<Inode> {
        if bytes.len() < INODE_SIZE {
            None
        } else {
            match FileType::spec_from_code(bytes[10]) {
                None => None,
                Some(kind) => Some(
                    Inode {
                        index: spec_u64_from_le_bytes(bytes.subrange(0, 8)),
                        mode: spec_u16_from_le_bytes(bytes.subrange(8, 10)),
                        kind,
                        size: spec_u64_from_le_bytes(bytes.subrange(11, 19)),
                        uid: spec_u32_from_le_bytes(bytes.subrange(19, 23)),
                        gid: spec_u32_from_le_bytes(bytes.subrange(23, 27)),
                        atime: spec_u64_from_le_bytes(bytes.subrange(27, 35)),
                        ctime: spec_u64_from_le_bytes(bytes.subrange(35, 43)),
                        mtime: spec_u64_from_le_bytes(bytes.subrange(43, 51)),
                        dtime: spec_u64_from_le_bytes(bytes.subrange(51, 59)),
                        block_count: spec_u64_from_le_bytes(bytes.subrange(59, 67)),
                        metadata: [
                            spec_u64_from_le_bytes(bytes.subrange(67, 75)),
                            spec_u64_from_le_bytes(bytes.subrange(75, 83)),
                            spec_u64_from_le_bytes(bytes.subrange(83, 91)),
                            spec_u64_from_le_bytes(bytes.subrange(91, 99)),
                            spec_u64_from_le_bytes(bytes.subrange(99, 107)),
                        ],
                        first_block: spec_u64_from_le_bytes(bytes.subrange(112, 120)),
                        last_block: spec_u64_from_le_bytes(bytes.subrange(120, 128)),
                    },
                ),
            }
        }
    }

    /// A stored record is 128 bytes long and decodes to the record it stores.
    pub proof fn lemma_round_trip(&self)
        ensures
            self.spec_bytes().len() == INODE_SIZE,
            Inode::spec_from_bytes(self.spec_bytes()) == Some(*self),
    {
        lemma_auto_spec_u64_to_from_le_bytes();
        lemma_auto_spec_u32_to_from_le_bytes();
        lemma_auto_spec_u16_to_from_le_bytes();
        let bytes = self.spec_bytes();
        assert(bytes.len() == 128);
        assert(bytes.subrange(0, 8) =~= spec_u64_to_le_bytes(self.index));
        assert(bytes.subrange(8, 10) =~= spec_u16_to_le_bytes(self.mode));
        assert(bytes[10] == self.kind.spec_code());
        assert(bytes.subrange(11, 19) =~= spec_u64_to_le_bytes(self.size));
        assert(bytes.subrange(19, 23) =~= spec_u32_to_le_bytes(self.uid));
        assert(bytes.subrange(23, 27) =~= spec_u32_to_le_bytes(self.gid));
        assert(bytes.subrange(27, 35) =~= spec_u64_to_le_bytes(self.atime));
        assert(bytes.subrange(35, 43) =~= spec_u64_to_le_bytes(self.ctime));
        assert(bytes.subrange(43, 51) =~= spec_u64_to_le_bytes(self.mtime));
        assert(bytes.subrange(51, 59) =~= spec_u64_to_le_bytes(self.dtime));
        assert(bytes.subrange(59, 67) =~= spec_u64_to_le_bytes(self.block_count));
        assert(bytes.subrange(67, 75) =~= spec_u64_to_le_bytes(self.metadata[0]));
        assert(bytes.subrange(75, 83) =~= spec_u64_to_le_bytes(self.metadata[1]));
        assert(bytes.subrange(83, 91) =~= spec_u64_to_le_bytes(self.metadata[2]));
        assert(bytes.subrange(91, 99) =~= spec_u64_to_le_bytes(self.metadata[3]));
        assert(bytes.subrange(99, 107) =~= spec_u64_to_le_bytes(self.metadata[4]));
        assert(bytes.subrange(112, 120) =~= spec_u64_to_le_bytes(self.first_block));
        assert(bytes.subrange(120, 128) =~= spec_u64_to_le_bytes(self.last_block));
        let decoded = Inode::spec_from_bytes(bytes).unwrap();
        assert(decoded.metadata =~= self.metadata);
    }

    /// Serializes the record.
    pub fn to_bytes(&self) -> (bytes: Vec<u8>)
        ensures
            bytes@ == self.spec_bytes(),
            bytes@.len() == INODE_SIZE,
    {
        proof {
            self.lemma_round_trip();
        }
        let mut bytes: Vec<u8> = Vec::new();
        bytes.extend_from_slice(u64_to_le_bytes(self.index).as_slice());
        bytes.extend_from_slice(u16_to_le_bytes(self.mode).as_slice());
        bytes.push(self.kind.code());
        assert(bytes@ =~= spec_u64_to_le_bytes(self.index) + spec_u16_to_le_bytes(self.mode)
            + seq![self.kind.spec_code()]);
        bytes.extend_from_slice(u64_to_le_bytes(self.size).as_slice());
        bytes.extend_from_slice(u32_to_le_bytes(self.uid).as_slice());
        bytes.extend_from_slice(u32_to_le_bytes(self.gid).as_slice());
        bytes.extend_from_slice(u64_to_le_bytes(self.atime).as_slice());
        bytes.extend_from_slice(u64_to_le_bytes(self.ctime).as_slice());
        bytes.extend_from_slice(u64_to_le_bytes(self.mtime).as_slice());
        bytes.extend_from_slice(u64_to_le_bytes(self.dtime).as_slice());
        bytes.extend_from_slice(u64_to_le_bytes(self.block_count).as_slice());
        bytes.extend_from_slice(u64_to_le_bytes(self.metadata[0]).as_slice());
        bytes.extend_from_slice(u64_to_le_bytes(self.metadata[1]).as_slice());
        bytes.extend_from_slice(u64_to_le_bytes(self.metadata[2]).as_slice());
        bytes.extend_from_slice(u64_to_le_bytes(self.metadata[3]).as_slice());
        bytes.extend_from_slice(u64_to_le_bytes(self.metadata[4]).as_slice());
        let ghost head = bytes@;
        bytes.push(0);
        bytes.push(0);
        bytes.push(0);
        bytes.push(0);
        bytes.push(0);
        assert(bytes@ =~= head + zeros(5));
        bytes.extend_from_slice(u64_to_le_bytes(self.first_block).as_slice());
        bytes.extend_from_slice(u64_to_le_bytes(self.last_block).as_slice());
        bytes
    }

    /// Deserializes a record; `InsufficientBytes` when fewer than 128 bytes
    /// are given or the kind byte names no kind.
    pub fn from_bytes(bytes: &[u8]) -> (result: Result<Inode, Error>)
        ensures
            match result {
                Ok(inode) => Inode::spec_from_bytes(bytes@) == Some(inode),
                Err(e) => e is InsufficientBytes && Inode::spec_from_bytes(bytes@) is None,
            },
    {
        if bytes.len() < 128 {
            return Err(Error::InsufficientBytes);
        }
        let kind = match FileType::from_code(bytes[10]) {
            Some(kind) => kind,
            None => {
                return Err(Error::InsufficientBytes);
            },
        };
        let inode = Inode {
            index: u64_from_le_bytes(slice_subrange(bytes, 0, 8)),
            mode: u16_from_le_bytes(slice_subrange(bytes, 8, 10)),
            kind,
            size: u64_from_le_bytes(slice_subrange(bytes, 11, 19)),
            uid: u32_from_le_bytes(slice_subrange(bytes, 19, 23)),
            gid: u32_from_le_bytes(slice_subrange(bytes, 23, 27)),
            atime: u64_from_le_bytes(slice_subrange(bytes, 27, 35)),
            ctime: u64_from_le_bytes(slice_subrange(bytes, 35, 43)),
            mtime: u64_from_le_bytes(slice_subrange(bytes, 43, 51)),
            dtime: u64_from_le_bytes(slice_subrange(bytes, 51, 59)),
            block_count: u64_from_le_bytes(slice_subrange(bytes, 59, 67)),
            metadata: [
                u64_from_le_bytes(slice_subrange(bytes, 67, 75)),
                u64_from_le_bytes(slice_subrange(bytes, 75, 83)),
                u64_from_le_bytes(slice_subrange(bytes, 83, 91)),
                u64_from_le_bytes(slice_subrange(bytes, 91, 99)),
                u64_from_le_bytes(slice_subrange(bytes, 99, 107)),
            ],
            first_block: u64_from_le_bytes(slice_subrange(bytes, 112, 120)),
            last_block: u64_from_le_bytes(slice_subrange(bytes, 120, 128)),
        };
        assert(inode.metadata =~= Inode::spec_from_bytes(bytes@).unwrap().metadata);
        Ok(inode)
    }

    /// Whether two records hold the same values.
    pub fn same_as(&self, other: &Inode) -> (same: bool)
        ensures
            same == (*self == *other),
    {
        let same = self.index == other.index && self.mode == other.mode && self.kind == other.kind
            && self.size == other.size && self.uid == other.uid && self.gid == other.gid
            && self.atime == other.atime && self.ctime == other.ctime && self.mtime == other.mtime
            && self.dtime == other.dtime && self.block_count == other.block_count
            && self.metadata[0] == other.metadata[0] && self.metadata[1] == other.metadata[1]
            && self.metadata[2] == other.metadata[2] && self.metadata[3] == other.metadata[3]
            && self.metadata[4] == other.metadata[4] && self.first_block == other.first_block
            && self.last_block == other.last_block;
        assert(same ==> self.metadata =~= other.metadata);
        same
    }

    /// The attributes that a host sees: the record's own fields, the block
    /// size of the filesystem, and zero for what is not kept.
    pub open spec fn spec_attrs(&self, superblock: &Superblock) -> FileAttributes {
        FileAttributes {
            ino: self.index,
            size: self.size,
            blocks: self.block_count,
            atime: self.atime,
            mtime: self.mtime,
            ctime: self.ctime,
            crtime: self.ctime,
            kind: self.kind,
            perm: self.mode,
            nlink: 0,
            uid: self.uid,
            gid: self.gid,
            rdev: 0,
            blksize: superblock.block_size,
            flags: 0,
        }
    }

    /// Computes `spec_attrs`.
    pub fn attrs(&self, superblock: &Superblock) -> (attributes: FileAttributes)
        ensures
            attributes == self.spec_attrs(superblock),
    {
        FileAttributes {
            ino: self.index,
            size: self.size,
            blocks: self.block_count,
            atime: self.atime,
            mtime: self.mtime,
            ctime: self.ctime,
            crtime: self.ctime,
            kind: self.kind,
            perm: self.mode,
            nlink: 0,
            uid: self.uid,
            gid: self.gid,
            rdev: 0,
            blksize: superblock.block_size,
            flags: 0,
        }
    }

    /// Reads the record of inode `index` from the device.
    pub fn load<D: BlockDevice>(block_device: &mut D, superblock: &Superblock, index: u64) -> (result:
        Result<Inode, Error>)
        requires
            superblock.wf(),
        ensures
            final(block_device).contents() == old(block_device).contents(),
            match result {
                Ok(inode) => Some(inode) == Inode::spec_stored(
                    old(block_device).contents(),
                    superblock,
                    index,
                ),
                Err(e) => {
                    ||| e is OutOfBounds && superblock.spec_inode_position(index) is None
                    ||| e is Io && superblock.spec_inode_position(index) is Some
                    ||| e is InsufficientBytes && Inode::spec_stored(
                        old(block_device).contents(),
                        superblock,
                        index,
                    ) is None && superblock.spec_inode_position(index) is Some
                },
            },
    {
        let position = match superblock.inode_position(index) {
            Ok(position) => position,
            Err(e) => {
                return Err(e);
            },
        };
        match block_device.read_exact_at(position, 128) {
            Ok(bytes) => Inode::from_bytes(bytes.as_slice()),
            Err(e) => Err(Error::Io(e)),
        }
    }

    /// The record of inode `index` that `contents` store, when the record
    /// lies within `contents` and decodes.
    pub open spec fn spec_stored(contents: Seq<u8>, superblock: &Superblock, index: u64) -> Option<
        Inode,
    > {
        match superblock.spec_inode_position(index) {
            Some(position) => if position + INODE_SIZE <= contents.len() {
                Inode::spec_from_bytes(contents.subrange(position, position + INODE_SIZE))
            } else {
                None
            },
            None => None,
        }
    }

    /// Writes the record at the position of its index.
    pub fn flush<D: BlockDevice>(&self, block_device: &mut D, superblock: &Superblock) -> (result:
        Result<(), Error>)
        requires
            superblock.wf(),
        ensures
            final(block_device).contents().len() == old(block_device).contents().len(),
            match superblock.spec_inode_position(self.index) {
                Some(position) => {
                    &&& forall|at: int|
                        0 <= at < old(block_device).contents().len() && !(position <= at
                            < position + INODE_SIZE) ==> final(block_device).contents()[at] == old(block_device).contents()[at]
                    &&& match result {
                        Ok(_) => position + INODE_SIZE <= old(block_device).contents().len()
                            && final(block_device).contents() == overwritten(
                            old(block_device).contents(),
                            position,
                            self.spec_bytes(),
                        ),
                        Err(e) => e is Io,
                    }
                },
                None => {
                    &&& result matches Err(e) && e is OutOfBounds
                    &&& final(block_device).contents() == old(block_device).contents()
                },
            },
    {
        let position = match superblock.inode_position(self.index) {
            Ok(position) => position,
            Err(e) => {
                return Err(e);
            },
        };
        let bytes = self.to_bytes();
        match block_device.write_all_at(position, bytes.as_slice()) {
            Ok(_) => Ok(()),
            Err(e) => Err(Error::Io(e)),
        }
    }
}

impl Default for Inode {
    fn default() -> (inode: Self)
        ensures
            inode.kind == FileType::RegularFile,
            inode.index == 0 && inode.mode == 0 && inode.size == 0 && inode.uid == 0 && inode.gid
                == 0,
            inode.atime == 0 && inode.ctime == 0 && inode.mtime == 0 && inode.dtime == 0,
            inode.block_count == 0 && inode.first_block == 0 && inode.last_block == 0,
            forall|slot: int| 0 <= slot < 5 ==> inode.metadata[slot] == 0,
    {
        Inode {
            index: 0,
            mode: 0,
            kind: FileType::RegularFile,
            size: 0,
            uid: 0,
            gid: 0,
            atime: 0,
            ctime: 0,
            mtime: 0,
            dtime: 0,
            block_count: 0,
            metadata: [0u64; 5],
            first_block: 0,
            last_block: 0,
        }
    }
}

} // verus!
