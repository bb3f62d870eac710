//! Regular files: an inode record and a byte file.

use vstd::prelude::*;
use crate::error::Error;
use crate::filesystem::Filesystem;
use crate::filesystem::device::BlockDevice;
use crate::filetypes::{Directory, Done, FileOperations, RawByteFile, RegularFile, SeekFrom};
use crate::filetypes::directory::{lemma_listed, lemma_listing_length, spec_listing,
    spec_listing_length, spec_listing_of, spec_name_of, spec_whole, spec_without, without};
use crate::filetypes::frame::{spec_chain, spec_rest_kept, spec_two_files};
use vstd::utf8::encode_utf8;
use crate::filetypes::helpers::{read_bytes, timestamp_now};
use crate::structs::{FileType, Inode, NULL_BLOCK};

verus! {

impl RegularFile {
    /// The bytes can be addressed in `fs`.
    pub open spec fn wf<D: BlockDevice>(&self, fs: &Filesystem<D>) -> bool {
        self.file.sound(fs)
    }

    /// The record that a flush stores at time `mtime`: the file's record
    /// with the chain and the size of its bytes.
    pub open spec fn spec_record(&self, mtime: u64) -> Inode {
        Inode {
            first_block: self.file.first_block,
            last_block: self.file.last_block,
            block_count: self.file.block_count,
            size: self.file.size,
            mtime,
            ..self.inode
        }
    }

    /// Number of bytes that a read of `size` bytes at `offset` returns from
    /// a file of `length` bytes: as many as lie between `offset` and the end.
    pub open spec fn spec_read_length(length: u64, offset: u64, size: u64) -> int {
        if size > length - offset {
            length - offset
        } else {
            size as int
        }
    }

    /// Reads up to `size` bytes from offset `offset`: the read is clamped
    /// so that it never overruns the end of the file. `OutOfBounds` when
    /// `offset` is beyond the end.
    pub fn read<D: BlockDevice>(&mut self, fs: &mut Filesystem<D>, offset: u64, size: u64) -> (result:
        Result<Vec<u8>, Error>)
        requires
            old(fs).wf(),
            old(self).wf(old(fs)),
        ensures
            final(fs).cached_from(old(fs)),
            final(fs).same_records(old(fs)),
            final(self).wf(final(fs)),
            final(self).file.same_chain(&old(self).file),
            final(self).modified == old(self).modified,
            final(self).removed == old(self).removed,
            offset > old(self).file.size ==> (result matches Err(e) && e is OutOfBounds)
                && *final(self) == *old(self),
            offset <= old(self).file.size && old(self).file.wf(old(fs)) && old(self).file.cached(
                old(fs),
            ) && Self::spec_read_length(old(self).file.size, offset, size) <= usize::MAX
                ==> result is Ok,
            final(fs).keeps_cached(old(fs)),
            offset <= old(self).file.size ==> (match result {
                Ok(bytes) => {
                    let count = Self::spec_read_length(old(self).file.size, offset, size);
                    &&& bytes@.len() == count
                    &&& old(self).file.wf(old(fs)) ==> bytes@ == old(self).file.contents(
                        old(fs),
                    ).subrange(offset as int, offset + count)
                },
                Err(e) => old(self).file.wf(old(fs)) ==> e is Io || (e is OutOfBounds
                    && Self::spec_read_length(old(self).file.size, offset, size) > usize::MAX),
            }),
    {
        let ghost before = self.file;
        if let Err(e) = self.file.seek(SeekFrom::Start(offset)) {
            return Err(e);
        }
        let ghost sought = self.file;
        let lookahead_size = self.file.size - self.file.cursor.position();
        let count = if size > lookahead_size {
            lookahead_size
        } else {
            size
        };
        if count > usize::MAX as u64 {
            return Err(Error::OutOfBounds);
        }
        self.inode.atime = timestamp_now();
        proof {
            if before.wf(old(fs)) {
                before.lemma_seek_keeps_wf(old(fs), &sought);
            }
        }
        read_bytes(&mut self.file, fs, count as usize)
    }

    /// Writes `data` at offset `offset`, growing the file as needed. The
    /// file counts as modified. `OutOfBounds` when `offset` is beyond the end.
    pub fn write<D: BlockDevice>(&mut self, fs: &mut Filesystem<D>, offset: u64, data: &[u8]) -> (result:
        Result<(), Error>)
        requires
            old(fs).wf(),
            old(self).wf(old(fs)),
        ensures
            final(fs).wf(),
            RawByteFile::same_geometry(final(fs), old(fs)),
            final(fs).same_inodes(old(fs)),
            final(self).wf(final(fs)),
            final(self).modified,
            final(self).removed == old(self).removed,
            final(self).inode == (Inode {
                atime: final(self).inode.atime,
                mtime: final(self).inode.mtime,
                ..old(self).inode
            }),
            offset > old(self).file.size ==> (result matches Err(e) && e is OutOfBounds)
                && final(fs).unchanged_from(old(fs)) && final(self).file == old(self).file,
            offset <= old(self).file.size && old(self).file.wf(old(fs))
                ==> (match result {
                Ok(_) => {
                    &&& final(self).file.wf(final(fs))
                    &&& final(self).file.contents(final(fs))
                        == crate::filetypes::raw_file::spec_written(
                        old(self).file.contents(old(fs)),
                        offset as int,
                        data@,
                    )
                    &&& Directory::framed(
                        final(fs),
                        old(fs),
                        &final(self).file,
                        &old(self).file,
                        old(self).inode.index,
                    )
                },
                Err(e) => {
                    ||| e is Io
                    ||| e is OutOfMemory && final(fs).spec_free_block() is None
                    ||| e is OutOfBounds && offset + data@.len() > u64::MAX
                },
            }),
    {
        self.modified = true;
        let ghost before = self.file;
        if let Err(e) = self.file.seek(SeekFrom::Start(offset)) {
            return Err(e);
        }
        let ghost sought = self.file;
        proof {
            if before.wf(old(fs)) {
                before.lemma_seek_keeps_wf(old(fs), &sought);
            }
        }
        self.inode.atime = timestamp_now();
        self.inode.mtime = timestamp_now();
        let written = self.file.write(fs, data);
        proof {
            if written is Ok && before.wf(old(fs)) {
                reveal(RawByteFile::extends);
                assert forall|other: RawByteFile| #[trigger]
                    other.wf(old(fs)) && other.apart(&before, old(fs)) implies other.wf(fs)
                    && other.contents(fs) == other.contents(old(fs)) && other.apart(
                    &self.file,
                    fs,
                ) && other.fixed(fs, old(fs)) by {
                    assert(other.apart(&sought, old(fs)));
                    other.lemma_apart_kept(&self.file, fs, &sought, old(fs));
                }
            }
        }
        written
    }

    /// Removes the file from the filesystem: every block of the file that
    /// its stored record describes is released, and the inode. Nothing is
    /// written back.
    pub fn remove<D: BlockDevice>(self, fs: &mut Filesystem<D>) -> (result: Result<Done<()>, Error>)
        requires
            old(fs).wf(),
        ensures
            final(fs).wf(),
            RawByteFile::same_geometry(final(fs), old(fs)),
            result matches Ok(done) ==> done.write_back is Ok,
            !old(fs).inode_live(self.inode.index) ==> (result matches Err(e) && e is OutOfBounds)
                && final(fs).unchanged_from(old(fs)),
            RawByteFile::removal(
                final(fs),
                old(fs),
                self.inode.index,
                crate::filetypes::spec_plain(result),
            ),
            result is Ok ==> RawByteFile::inode_released(final(fs), old(fs), self.inode.index),
            final(fs).inodes_within(old(fs)),
            result is Ok ==> final(fs).superblock.inodes_free > old(fs).superblock.inodes_free,
    {
        match RawByteFile::remove(fs, self.inode.index) {
            Ok(_) => Ok(Done { value: (), write_back: Ok(()) }),
            Err(e) => Err(e),
        }
    }

    /// Writes the file back when it was modified and not removed, as the
    /// end of its use does.
    pub fn close<D: BlockDevice>(self, fs: &mut Filesystem<D>) -> (result: Result<(), Error>)
        requires
            old(fs).wf(),
            self.wf(old(fs)),
        ensures
            final(fs).wf(),
            final(fs).same_allocation(old(fs)),
            RawByteFile::same_geometry(final(fs), old(fs)),
            final(fs).same_inodes(old(fs)),
            self.removed || !self.modified ==> result is Ok && *final(fs) == *old(fs),
            !self.removed && self.modified ==> (if self.inode.index >= old(fs).superblock.inode_count {
                (result matches Err(e) && e is OutOfBounds) && final(fs).unchanged_from(old(fs))
            } else {
                &&& result matches Err(e) ==> e is Io
                &&& (match final(fs).inode_view(self.inode.index) {
                    Some(stored) => stored == self.spec_record(stored.mtime) && final(fs).with_inode_record(old(fs), stored),
                    None => false,
                })
            }),
    {
        if self.removed || !self.modified {
            return Ok(());
        }
        let mut held = self;
        held.flush(fs)
    }
}

impl RegularFile {
    /// Makes a regular file under `parent`: the lowest free inode is
    /// allocated, the file is entered in the parent, which is written back,
    /// and a record is made that the first flush stores. `OutOfMemory` when
    /// no inode is free. What became of writing the parent back is handed
    /// on; where it succeeded the parent lists the file behind what it
    /// listed.
    pub fn new<D: BlockDevice>(fs: &mut Filesystem<D>, parent: u64, name: &str, mode: u32) -> (result:
        Result<Done<Self>, Error>)
        requires
            old(fs).wf(),
        ensures
            final(fs).wf(),
            result matches Ok(done) ==> done.value.wf(final(fs)),
            result matches Ok(done) ==> done.value.file.wf(final(fs)),
            RawByteFile::same_geometry(final(fs), old(fs)),
            old(fs).spec_free_inode() is None ==> (result matches Err(e) && e is OutOfMemory)
                && final(fs).unchanged_from(old(fs)),
            old(fs).spec_free_inode() is Some && old(fs).spec_free_inode() != Some(parent)
                && !old(fs).inode_live(parent) ==> (result matches Err(e) && (e is OutOfBounds
                || e is Io)),
            old(fs).spec_free_inode() is Some && old(fs).spec_free_inode() != Some(parent) && old(fs).inode_live(parent) ==> (match old(fs).inode_view(parent) {
                Some(record) => RawByteFile::spec_load(old(fs), record).wf(old(fs)) ==> (
                result matches Err(e) ==> {
                    ||| crate::filetypes::directory::spec_load_failure(old(fs), record, e)
                    ||| e is OutOfBounds && vstd::utf8::encode_utf8(name@).len() > 65535
                    ||| e is NameOrInodeDuplicate && spec_listing_of(old(fs), parent).contains(
                        (old(fs).spec_free_inode()->Some_0, name@),
                    )
                }),
                None => result matches Err(e) && (e is Io || e is InsufficientBytes),
            }),
            result matches Ok(done) ==> {
                &&& old(fs).spec_free_inode() == Some(done.value.inode.index)
                &&& final(fs).inodes_but(old(fs), done.value.inode.index, true)
                &&& done.value.inode.mode == mode % 0x1_0000
                &&& done.value.inode.kind == FileType::RegularFile
                &&& done.value.inode.size == 0
                &&& done.value.inode.uid == 0 && done.value.inode.gid == 0
                &&& done.value.inode.atime == done.value.inode.ctime && done.value.inode.ctime == done.value.inode.mtime
                &&& done.value.inode.dtime == u64::MAX
                &&& done.value.inode.block_count == 0
                &&& done.value.inode.metadata[0] == parent
                &&& done.value.inode.metadata[1] == NULL_BLOCK && done.value.inode.metadata[2] == NULL_BLOCK
                &&& done.value.inode.metadata[3] == NULL_BLOCK && done.value.inode.metadata[4] == NULL_BLOCK
                &&& done.value.inode.first_block == NULL_BLOCK && done.value.inode.last_block == NULL_BLOCK
                &&& done.value.file.block_count == 0 && done.value.file.size == 0
                &&& done.value.file.first_block == NULL_BLOCK && done.value.file.last_block == NULL_BLOCK
                &&& done.value.modified && !done.value.removed
            },
            result matches Ok(done) ==> (old(fs).inode_live(parent) && spec_whole(old(fs), parent) ==>
            match done.write_back {
                Ok(_) => {
                    &&& spec_whole(final(fs), parent)
                    &&& spec_listing_of(final(fs), parent) == spec_listing_of(old(fs), parent).push(
                        (done.value.inode.index, name@),
                    )
                    &&& spec_name_of(final(fs), parent) == spec_name_of(old(fs), parent)
                    &&& match (old(fs).inode_view(parent), final(fs).inode_view(parent)) {
                        (Some(record), Some(stored)) => Directory::framed(
                            final(fs),
                            old(fs),
                            &RawByteFile::spec_load(final(fs), stored),
                            &RawByteFile::spec_load(old(fs), record),
                            parent,
                        ),
                        _ => false,
                    }
                },
                Err(e) => {
                    ||| e is Io
                    ||| e is OutOfMemory && final(fs).spec_free_block() is None
                    ||| e is OutOfBounds && encode_utf8(spec_name_of(old(fs), parent)).len()
                        + spec_listing_length(
                        spec_listing_of(old(fs), parent).push((done.value.inode.index, name@)),
                    ) > u64::MAX
                },
            }),
    {
        let now = timestamp_now();
        proof {
            old(fs).lemma_free_index();
        }
        let inode = match fs.acquire_inode() {
            Ok(inode) => inode,
            Err(e) => {
                return Err(e);
            },
        };
        let ghost acquired = *fs;
        let file = match RawByteFile::new(fs) {
            Ok(file) => file,
            Err(e) => {
                return Err(e);
            },
        };
        proof {
            if let Some(record) = old(fs).inode_view(parent) {
                let described = RawByteFile::spec_load(old(fs), record);
                if described.wf(old(fs)) {
                    described.lemma_wf_seen(old(fs), &acquired);
                }
            }
        }
        let mut above = match Directory::load(fs, parent) {
            Ok(directory) => directory,
            Err(e) => {
                return Err(e);
            },
        };
        let ghost listed = above.children@;
        let ghost loaded = *fs;
        proof {
            old(fs).lemma_live_bounded();
            if old(fs).inode_live(parent) && spec_whole(old(fs), parent) {
                let record = old(fs).inode_view(parent)->Some_0;
                assert(acquired.inode_view(parent) == old(fs).inode_view(parent));
                assert(RawByteFile::spec_load(&acquired, record) == RawByteFile::spec_load(
                    old(fs),
                    record,
                ));
                assert(spec_listing_of(&acquired, parent) == spec_listing_of(old(fs), parent));
                assert(spec_name_of(&acquired, parent) == spec_name_of(old(fs), parent));
                assert(above.inode.index == parent);
            }
        }
        if let Err(e) = above.add_child(name, inode) {
            proof {
                lemma_listed(listed, inode, name@);
            }
            return Err(e);
        }
        proof {
            assert(spec_listing(above.children@) =~= spec_listing(listed).push((inode, name@)));
            lemma_listing_length(above.children@);
        }
        let ghost held = above.file;
        proof {
            if old(fs).inode_live(parent) && spec_whole(old(fs), parent) {
                let record = old(fs).inode_view(parent)->Some_0;
                let described = RawByteFile::spec_load(old(fs), record);
                assert forall|other: RawByteFile| #[trigger]
                    other.wf(old(fs)) && other.apart(&described, old(fs)) implies other.wf(&loaded)
                    && other.contents(&loaded) == other.contents(old(fs)) && other.apart(
                    &held,
                    &loaded,
                ) && other.fixed(&loaded, old(fs)) by {
                    other.lemma_apart_seen(&described, old(fs), &acquired);
                    other.lemma_apart_stable(&described, &held, &acquired, &loaded);
                    other.lemma_fixed_twice(&loaded, &acquired, old(fs));
                }
                assert forall|other: u64| #[trigger]
                    loaded.inode_view(other) == old(fs).inode_view(other) by {
                    assert(acquired.inode_view(other) == old(fs).inode_view(other));
                }
            }
        }
        let write_back = above.close(fs);
        proof {
            fs.lemma_inodes_but(&acquired, old(fs), inode, true);
        }
        let file = RawByteFile { cursor: crate::filetypes::BlockCursor::new(fs, (8, 0)), ..file };
        proof {
            reveal(RawByteFile::linked);
        }
        Ok(Done { write_back, value:
            Self {
                inode: Inode {
                    index: inode,
                    mode: (mode % 0x1_0000) as u16,
                    kind: FileType::RegularFile,
                    size: 0,
                    uid: 0,
                    gid: 0,
                    atime: now,
                    ctime: now,
                    mtime: now,
                    dtime: u64::MAX,
                    block_count: 0,
                    metadata: [parent, NULL_BLOCK, NULL_BLOCK, NULL_BLOCK, NULL_BLOCK],
                    first_block: file.first_block,
                    last_block: file.last_block,
                },
                file,
                modified: true,
                removed: false,
            },
        })
    }

    /// Loads the regular file of inode `index`: its record and, from the
    /// record, its bytes. `OutOfBounds` when the inode is not allocated. A
    /// record that the cache holds is loaded without the device; one that it
    /// does not hold is read, which fails with `Io` when the device refuses
    /// and with `InsufficientBytes` when what is stored is no record.
    pub fn load<D: BlockDevice>(fs: &mut Filesystem<D>, index: u64) -> (result: Result<Self, Error>)
        requires
            old(fs).wf(),
        ensures
            final(fs).wf(),
            result matches Ok(loaded) ==> loaded.wf(final(fs)),
            final(fs).cached_from(old(fs)),
            final(fs).same_records(old(fs)),
            final(fs).keeps_cached(old(fs)),
            !old(fs).inode_live(index) ==> (result matches Err(e) && e is OutOfBounds),
            result matches Err(e) ==> e.load_failure(),
            old(fs).inode_live(index) && old(fs).cache.inodes@.contains_key(index) ==> result is Ok,
            old(fs).inode_live(index) ==> (result matches Err(e) ==> e is Io || (e
                is InsufficientBytes && old(fs).inode_view(index) is None)),
            result matches Ok(loaded) ==> {
                &&& old(fs).inode_live(index)
                &&& old(fs).inode_view(index) == Some(loaded.inode)
                &&& loaded.file == RawByteFile::spec_load(old(fs), loaded.inode)
                &&& !loaded.modified && !loaded.removed
            },
    {
        let inode = match fs.load_inode(index) {
            Ok(inode) => inode,
            Err(e) => {
                return Err(e);
            },
        };
        let file = match RawByteFile::load(fs, inode) {
            Ok(file) => file,
            Err(e) => {
                return Err(e);
            },
        };
        Ok(Self { inode, file, modified: false, removed: false })
    }

    /// Writes the file back: the record, with the blocks, the size and the
    /// time of modification, is stored in the filesystem.
    pub fn flush<D: BlockDevice>(&mut self, fs: &mut Filesystem<D>) -> (result: Result<(), Error>)
        requires
            old(fs).wf(),
            old(self).wf(old(fs)),
        ensures
            final(fs).wf(),
            final(self).wf(final(fs)),
            final(fs).same_allocation(old(fs)),
            RawByteFile::same_geometry(final(fs), old(fs)),
            final(fs).same_inodes(old(fs)),
            final(self).file == old(self).file,
            final(self).removed == old(self).removed,
            !final(self).modified,
            final(self).inode == old(self).spec_record(final(self).inode.mtime),
            old(self).inode.index >= old(fs).superblock.inode_count ==> (
            result matches Err(e) && e is OutOfBounds) && final(fs).unchanged_from(old(fs)),
            old(self).inode.index < old(fs).superblock.inode_count ==> {
                &&& result matches Err(e) ==> e is Io
                &&& final(fs).with_inode_record(
                    old(fs),
                    final(self).inode,
                )
            },
    {
        self.modified = false;
        self.file.update_inode(&mut self.inode);
        self.inode.mtime = timestamp_now();
        self.inode.block_count = self.file.block_count;
        self.inode.size = self.file.size;
        fs.flush_inode(&self.inode)
    }

    /// Removes the file from its parent directory, which is written back,
    /// and then from the filesystem. What became of the write-back is handed
    /// on when the removal has succeeded; where it succeeded too, the parent
    /// lists what it listed but the file, the inode and the blocks of the
    /// file are free, and every other file is as it was.
    pub fn remove_from_parent<D: BlockDevice>(self, fs: &mut Filesystem<D>) -> (result: Result<
        Done<()>,
        Error,
    >)
        requires
            old(fs).wf(),
            self.wf(old(fs)),
        ensures
            final(fs).wf(),
            RawByteFile::same_geometry(final(fs), old(fs)),
            !old(fs).inode_live(self.inode.metadata[0]) ==> (result matches Err(e) && e
                is OutOfBounds) && final(fs).cached_from(old(fs)) && final(fs).same_records(
                old(fs),
            ),
            final(fs).inodes_within(old(fs)),
            result is Ok ==> final(fs).superblock.inodes_free > old(fs).superblock.inodes_free,
            result matches Ok(done) ==> (done.write_back is Ok && spec_two_files(
                old(fs),
                self.inode.metadata[0],
                self.inode.index,
            ) ==> {
                &&& final(fs).inodes_but(old(fs), self.inode.index, false)
                &&& spec_whole(final(fs), self.inode.metadata[0])
                &&& spec_name_of(final(fs), self.inode.metadata[0]) == spec_name_of(
                    old(fs),
                    self.inode.metadata[0],
                )
                &&& spec_listing_of(final(fs), self.inode.metadata[0]) == spec_without(
                    spec_listing_of(old(fs), self.inode.metadata[0]),
                    self.inode.index,
                )
                &&& spec_rest_kept(final(fs), old(fs), self.inode.metadata[0], self.inode.index)
            }),
    {
        let mut above = match Directory::load(fs, self.inode.metadata[0]) {
            Ok(directory) => directory,
            Err(e) => {
                proof {
                    fs.lemma_inodes_fewer(old(fs));
                }
                return Err(e);
            },
        };
        let ghost loaded = *fs;
        let ghost held = above.file;
        above.children = without(&above.children, self.inode.index);
        above.modified = true;
        let write_back = above.close(fs);
        let ghost closed = *fs;
        let removed = RawByteFile::remove(fs, self.inode.index);
        proof {
            closed.lemma_inodes_fewer(old(fs));
            fs.lemma_inodes_within(&closed, old(fs));
            let parent = self.inode.metadata[0];
            let index = self.inode.index;
            if removed is Ok && write_back is Ok && spec_two_files(old(fs), parent, index) {
                loaded.lemma_same_allocation(old(fs));
                let one = old(fs).inode_view(parent)->Some_0;
                let found = old(fs).inode_view(index)->Some_0;
                let source = RawByteFile::spec_load(old(fs), one);
                let below = RawByteFile::spec_load(old(fs), found);
                let stored = closed.inode_view(parent)->Some_0;
                let described = RawByteFile::spec_load(&closed, stored);
                assert(below.apart(&source, old(fs))) by {
                    assert forall|block: u64| !(#[trigger] below.owns(old(fs), block)
                        && source.owns(old(fs), block)) by {
                        assert(!(source.owns(old(fs), block) && below.owns(old(fs), block)));
                    }
                }
                below.lemma_apart_stable(&source, &held, old(fs), &loaded);
                assert(loaded.inode_view(index) == old(fs).inode_view(index));
                assert(closed.inode_view(index) == loaded.inode_view(index));
                assert(RawByteFile::spec_load(&closed, found) == below);
                assert(below.wf(&closed) && below.apart(&described, &closed) && below.fixed(
                    &closed,
                    &loaded,
                ));
                assert(described.apart(&below, &closed)) by {
                    assert forall|block: u64| !(#[trigger] described.owns(&closed, block)
                        && below.owns(&closed, block)) by {
                        assert(!(below.owns(&closed, block) && described.owns(&closed, block)));
                    }
                }
                assert(closed.inode_live(index));
                assert(RawByteFile::released(fs, &closed, found));
                described.lemma_apart_released(fs, &closed, found);
                closed.lemma_same_inodes(old(fs));
                assert forall|other: u64| other != index implies #[trigger] fs.inode_live(other)
                    == old(fs).inode_live(other) by {
                    assert(fs.inode_live(other) == closed.inode_live(other));
                }
                assert(fs.inode_view(parent) == closed.inode_view(parent));
                assert(RawByteFile::spec_load(fs, stored) == described);
                assert(!fs.inode_live(index));
                assert forall|other: RawByteFile| #[trigger]
                    other.wf(old(fs)) && other.apart(&spec_chain(old(fs), parent), old(fs))
                        && other.apart(&spec_chain(old(fs), index), old(fs)) implies other.wf(fs)
                    && other.contents(fs) == other.contents(old(fs)) && other.apart(
                    &spec_chain(fs, parent),
                    fs,
                ) && other.apart(&spec_chain(fs, index), fs) && other.fixed(fs, old(fs)) by {
                    other.lemma_apart_stable(&source, &held, old(fs), &loaded);
                    other.lemma_apart_stable(&below, &below, old(fs), &loaded);
                    assert(other.wf(&closed) && other.fixed(&closed, &loaded));
                    other.lemma_fixed_apart(&below, &loaded, &closed);
                    other.lemma_apart_released(fs, &closed, found);
                    other.lemma_fixed_apart(&described, &closed, fs);
                    other.lemma_fixed_twice(&closed, &loaded, old(fs));
                    other.lemma_fixed_twice(fs, &closed, old(fs));
                    assert forall|block: u64| !(#[trigger] other.owns(fs, block) && spec_chain(
                        fs,
                        index,
                    ).owns(fs, block)) by {
                        assert(!spec_chain(fs, index).owns(fs, block));
                    }
                }
                assert forall|other: u64| other != parent && other != index implies
                    #[trigger] fs.inode_view(other) == old(fs).inode_view(other) by {
                    assert(closed.inode_view(other) == loaded.inode_view(other));
                    assert(loaded.inode_view(other) == old(fs).inode_view(other));
                }
            }
        }
        match removed {
            Ok(_) => Ok(Done { value: (), write_back }),
            Err(e) => Err(e),
        }
    }
}

impl<D: BlockDevice> FileOperations<D> for RegularFile {
    open spec fn flushable(&self, fs: &Filesystem<D>) -> bool {
        self.wf(fs)
    }

    /// What [`RegularFile::new`] does, with its contract.
    fn new(fs: &mut Filesystem<D>, parent: u64, name: &str, mode: u32) -> (result: Result<
        Done<Self>,
        Error,
    >)
        ensures
            final(fs).wf(),
            result matches Ok(done) ==> done.value.wf(final(fs)),
            result matches Ok(done) ==> done.value.file.wf(final(fs)),
            RawByteFile::same_geometry(final(fs), old(fs)),
            old(fs).spec_free_inode() is None ==> (result matches Err(e) && e is OutOfMemory)
                && final(fs).unchanged_from(old(fs)),
            old(fs).spec_free_inode() is Some && old(fs).spec_free_inode() != Some(parent)
                && !old(fs).inode_live(parent) ==> (result matches Err(e) && (e is OutOfBounds
                || e is Io)),
            old(fs).spec_free_inode() is Some && old(fs).spec_free_inode() != Some(parent) && old(fs).inode_live(parent) ==> (match old(fs).inode_view(parent) {
                Some(record) => RawByteFile::spec_load(old(fs), record).wf(old(fs)) ==> (
                result matches Err(e) ==> {
                    ||| crate::filetypes::directory::spec_load_failure(old(fs), record, e)
                    ||| e is OutOfBounds && vstd::utf8::encode_utf8(name@).len() > 65535
                    ||| e is NameOrInodeDuplicate && spec_listing_of(old(fs), parent).contains(
                        (old(fs).spec_free_inode()->Some_0, name@),
                    )
                }),
                None => result matches Err(e) && (e is Io || e is InsufficientBytes),
            }),
            result matches Ok(done) ==> {
                &&& old(fs).spec_free_inode() == Some(done.value.inode.index)
                &&& final(fs).inodes_but(old(fs), done.value.inode.index, true)
                &&& done.value.inode.mode == mode % 0x1_0000
                &&& done.value.inode.kind == FileType::RegularFile
                &&& done.value.inode.size == 0
                &&& done.value.inode.uid == 0 && done.value.inode.gid == 0
                &&& done.value.inode.atime == done.value.inode.ctime && done.value.inode.ctime == done.value.inode.mtime
                &&& done.value.inode.dtime == u64::MAX
                &&& done.value.inode.block_count == 0
                &&& done.value.inode.metadata[0] == parent
                &&& done.value.inode.metadata[1] == NULL_BLOCK && done.value.inode.metadata[2] == NULL_BLOCK
                &&& done.value.inode.metadata[3] == NULL_BLOCK && done.value.inode.metadata[4] == NULL_BLOCK
                &&& done.value.inode.first_block == NULL_BLOCK && done.value.inode.last_block == NULL_BLOCK
                &&& done.value.file.block_count == 0 && done.value.file.size == 0
                &&& done.value.file.first_block == NULL_BLOCK && done.value.file.last_block == NULL_BLOCK
                &&& done.value.modified && !done.value.removed
            },
            result matches Ok(done) ==> (old(fs).inode_live(parent) && spec_whole(old(fs), parent) ==>
            match done.write_back {
                Ok(_) => {
                    &&& spec_whole(final(fs), parent)
                    &&& spec_listing_of(final(fs), parent) == spec_listing_of(old(fs), parent).push(
                        (done.value.inode.index, name@),
                    )
                    &&& spec_name_of(final(fs), parent) == spec_name_of(old(fs), parent)
                    &&& match (old(fs).inode_view(parent), final(fs).inode_view(parent)) {
                        (Some(record), Some(stored)) => Directory::framed(
                            final(fs),
                            old(fs),
                            &RawByteFile::spec_load(final(fs), stored),
                            &RawByteFile::spec_load(old(fs), record),
                            parent,
                        ),
                        _ => false,
                    }
                },
                Err(e) => {
                    ||| e is Io
                    ||| e is OutOfMemory && final(fs).spec_free_block() is None
                    ||| e is OutOfBounds && encode_utf8(spec_name_of(old(fs), parent)).len()
                        + spec_listing_length(
                        spec_listing_of(old(fs), parent).push((done.value.inode.index, name@)),
                    ) > u64::MAX
                },
            }),
    {
        RegularFile::new(fs, parent, name, mode)
    }

    /// What [`RegularFile::load`] does, with its contract.
    fn load(fs: &mut Filesystem<D>, index: u64) -> (result: Result<Self, Error>)
        ensures
            final(fs).wf(),
            result matches Ok(loaded) ==> loaded.wf(final(fs)),
            final(fs).cached_from(old(fs)),
            final(fs).same_records(old(fs)),
            final(fs).keeps_cached(old(fs)),
            !old(fs).inode_live(index) ==> (result matches Err(e) && e is OutOfBounds),
            result matches Err(e) ==> e.load_failure(),
            old(fs).inode_live(index) && old(fs).cache.inodes@.contains_key(index) ==> result is Ok,
            old(fs).inode_live(index) ==> (result matches Err(e) ==> e is Io || (e
                is InsufficientBytes && old(fs).inode_view(index) is None)),
            result matches Ok(loaded) ==> {
                &&& old(fs).inode_live(index)
                &&& old(fs).inode_view(index) == Some(loaded.inode)
                &&& loaded.file == RawByteFile::spec_load(old(fs), loaded.inode)
                &&& !loaded.modified && !loaded.removed
            },
    {
        RegularFile::load(fs, index)
    }

    /// What [`RegularFile::flush`] does, with its contract.
    fn flush(&mut self, fs: &mut Filesystem<D>) -> (result: Result<(), Error>)
        ensures
            final(fs).wf(),
            final(self).wf(final(fs)),
            final(fs).same_allocation(old(fs)),
            RawByteFile::same_geometry(final(fs), old(fs)),
            final(fs).same_inodes(old(fs)),
            final(self).file == old(self).file,
            final(self).removed == old(self).removed,
            !final(self).modified,
            final(self).inode == old(self).spec_record(final(self).inode.mtime),
            old(self).inode.index >= old(fs).superblock.inode_count ==> (
            result matches Err(e) && e is OutOfBounds) && final(fs).unchanged_from(old(fs)),
            old(self).inode.index < old(fs).superblock.inode_count ==> {
                &&& result matches Err(e) ==> e is Io
                &&& final(fs).with_inode_record(
                    old(fs),
                    final(self).inode,
                )
            },
    {
        RegularFile::flush(self, fs)
    }

    /// What [`RegularFile::remove_from_parent`] does, with its contract.
    fn remove(self, fs: &mut Filesystem<D>) -> (result: Result<Done<()>, Error>)
        ensures
            final(fs).wf(),
            RawByteFile::same_geometry(final(fs), old(fs)),
            !old(fs).inode_live(self.inode.metadata[0]) ==> (result matches Err(e) && e
                is OutOfBounds) && final(fs).cached_from(old(fs)) && final(fs).same_records(
                old(fs),
            ),
            final(fs).inodes_within(old(fs)),
            result is Ok ==> final(fs).superblock.inodes_free > old(fs).superblock.inodes_free,
            result matches Ok(done) ==> (done.write_back is Ok && spec_two_files(
                old(fs),
                self.inode.metadata[0],
                self.inode.index,
            ) ==> {
                &&& final(fs).inodes_but(old(fs), self.inode.index, false)
                &&& spec_whole(final(fs), self.inode.metadata[0])
                &&& spec_name_of(final(fs), self.inode.metadata[0]) == spec_name_of(
                    old(fs),
                    self.inode.metadata[0],
                )
                &&& spec_listing_of(final(fs), self.inode.metadata[0]) == spec_without(
                    spec_listing_of(old(fs), self.inode.metadata[0]),
                    self.inode.index,
                )
                &&& spec_rest_kept(final(fs), old(fs), self.inode.metadata[0], self.inode.index)
            }),
    {
        RegularFile::remove_from_parent(self, fs)
    }
}

} // verus!
