//! Byte files over chains of blocks, and the directories and regular files
//! built on them.

pub mod block_cursor;
pub mod directory;
pub mod directory_child;
pub mod frame;
pub mod helpers;
pub mod raw_file;
pub mod regular_file;

use vstd::prelude::*;
use crate::error::Error;
use crate::filesystem::Filesystem;
use crate::filesystem::device::BlockDevice;
use crate::structs::Inode;

verus! {

/// What an operation that has succeeded gives, and what became of writing
/// back the directories and files that it changed. A write-back that fails
/// does not fail the operation; its failure is handed on for the caller to
/// record.
#[derive(Debug)]
pub struct Done<T> {
    pub value: T,
    /// `Ok` when every write-back succeeded, else the first failure.
    pub write_back: Result<(), Error>,
}

/// The outcome of an operation without what it gives and without its
/// write-back.
pub open spec fn spec_plain<T>(result: Result<Done<T>, Error>) -> Result<(), Error> {
    match result {
        Ok(_) => Ok(()),
        Err(e) => Err(e),
    }
}

/// The outcome of two write-backs: success when both succeeded, else the
/// first failure.
pub fn both_written(first: Result<(), Error>, second: Result<(), Error>) -> (both: Result<
    (),
    Error,
>)
    ensures
        both is Ok <==> first is Ok && second is Ok,
        first is Err ==> both == first,
        first is Ok ==> both == second,
{
    match first {
        Ok(_) => second,
        Err(e) => Err(e),
    }
}

/// A filesystem object that can be made under a parent inode.
pub trait File: Sized {
    /// Makes the object under the inode `parent`.
    fn new<D: BlockDevice>(fs: &mut Filesystem<D>, parent: u64) -> Result<Self, Error>;
}

/// What directories and regular files have in common: they are made under
/// a parent directory, loaded from their inode, written back, and removed.
pub trait FileOperations<D: BlockDevice>: Sized {
    /// Whether the object can be written back.
    spec fn flushable(&self, fs: &Filesystem<D>) -> bool;

    /// Makes the object under the directory `parent`, with the name `name`
    /// and the mode `mode`, and hands on what became of writing the parent
    /// back.
    fn new(fs: &mut Filesystem<D>, parent: u64, name: &str, mode: u32) -> (result: Result<
        Done<Self>,
        Error,
    >)
        requires
            old(fs).wf(),
        ensures
            final(fs).wf(),
            result matches Ok(done) ==> done.value.flushable(final(fs)),
    ;

    /// Loads the object of inode `index`.
    fn load(fs: &mut Filesystem<D>, index: u64) -> (result: Result<Self, Error>)
        requires
            old(fs).wf(),
        ensures
            final(fs).wf(),
            result matches Ok(loaded) ==> loaded.flushable(final(fs)),
    ;

    /// Writes the object back to the filesystem.
    fn flush(&mut self, fs: &mut Filesystem<D>) -> (result: Result<(), Error>)
        requires
            old(fs).wf(),
            old(self).flushable(old(fs)),
        ensures
            final(fs).wf(),
            final(self).flushable(final(fs)),
    ;

    /// Removes the object from the filesystem, and hands on what became of
    /// writing back what the removal changed.
    fn remove(self, fs: &mut Filesystem<D>) -> (result: Result<Done<()>, Error>)
        requires
            old(fs).wf(),
            self.flushable(old(fs)),
        ensures
            final(fs).wf(),
    ;
}

/// A regular file: its inode record and its bytes.
#[derive(Debug, Clone)]
pub struct RegularFile {
    pub inode: Inode,
    pub file: RawByteFile,
    /// Whether the object holds changes that the filesystem does not.
    pub modified: bool,
    /// Whether the file was removed from the filesystem.
    pub removed: bool,
}

/// A directory: its inode record, its stream, its name and its entries.
#[derive(Debug, Clone)]
pub struct Directory {
    pub inode: Inode,
    pub file: RawByteFile,
    pub name: String,
    pub children: Vec<DirectoryChild>,
    /// Whether the object holds changes that the filesystem does not.
    pub modified: bool,
    /// Whether the directory was removed from the filesystem.
    pub removed: bool,
}

/// Position in a stream of payload bytes that is spread over blocks with
/// reserved bytes at their front and back.
#[derive(Debug, Clone)]
pub struct BlockCursor {
    pub block_size: usize,
    pub block_padding_front: usize,
    pub block_padding_back: usize,
    pub current_block: u64,
    pub current_byte: usize,
}

/// A byte stream stored in a chain of blocks.
#[derive(Debug, Clone)]
pub struct RawByteFile {
    pub first_block: u64,
    pub last_block: u64,
    pub block_count: u64,
    pub size: u64,
    pub cursor: BlockCursor,
}

/// Where a seek starts from, and how far it goes.
#[derive(Debug, Clone, Copy)]
pub enum SeekFrom {
    /// An offset from the start of the file.
    Start(u64),
    /// An offset from the end of the file.
    End(i64),
    /// An offset from the cursor.
    Current(i64),
}

/// One entry of a directory: the inode of a child and its name.
#[derive(Debug, Clone)]
pub struct DirectoryChild {
    pub inode: u64,
    pub name: String,
}

/// Names a child of a directory by its name or by its inode.
#[derive(Debug, Clone)]
pub enum DirectoryChildIdentifier<'a> {
    Name(&'a str),
    Inode(u64),
}

} // verus!
