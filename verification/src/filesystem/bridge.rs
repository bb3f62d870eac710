//! The operations that a host's filesystem bridge asks for, on plain values.

use vstd::prelude::*;
use crate::bytes::zeros;
use crate::error::{Errno, Error};
use crate::filesystem::{Filesystem, FuseFs, ROOT_INODE};
use crate::filesystem::device::BlockDevice;
use crate::filetypes::{both_written, Directory, DirectoryChild, DirectoryChildIdentifier, Done,
    RawByteFile, RegularFile};
use crate::filetypes::directory::{spec_without, lemma_listing_length, spec_listing, lemma_listing_renamed, lemma_lookup_parsed,
    spec_entry_failure, spec_listing_length, spec_listing_of, spec_listing_renamed, spec_load_failure,
    spec_name_of, spec_whole,
    spec_loads,
    spec_removal_failure, spec_identified, spec_entry_inode, spec_entry_is,
    spec_entry_name, spec_first_named, spec_stream_listing, spec_stream_lookup};
use crate::filetypes::frame::{spec_chain, spec_rest_kept, spec_two_files};
use crate::filetypes::raw_file::spec_written;
use crate::structs::{FileAttributes, FileType, Inode, NULL_BLOCK};

verus! {

/// One entry of a directory listing.
#[derive(Debug, Clone)]
pub struct DirectoryEntry {
    /// Inode of the entry.
    pub ino: u64,
    /// Offset at which a listing continues behind the entry.
    pub cookie: i64,
    /// What the inode describes.
    pub kind: FileType,
    pub name: String,
}

/// Counts that describe a filesystem to its host.
#[derive(Debug, Clone, Copy, PartialEq, Eq, Structural)]
pub struct Statistics {
    pub blocks: u64,
    pub blocks_free: u64,
    pub blocks_available: u64,
    pub files: u64,
    pub files_free: u64,
    pub block_size: u32,
    pub name_length: u32,
    pub fragment_size: u32,
}

/// The size that `fallocate` asks for: the size less the offset plus the
/// length, when that is a size.
pub open spec fn spec_fallocate_size(size: u64, offset: i64, length: i64) -> Option<u64> {
    let wanted = size - offset + length;
    if 0 <= wanted <= u64::MAX {
        Some(wanted as u64)
    } else {
        None
    }
}

/// Computes `spec_fallocate_size`.
pub fn fallocate_size(size: u64, offset: i64, length: i64) -> (wanted: Option<u64>)
    ensures
        wanted == spec_fallocate_size(size, offset, length),
{
    let wide: i128 = size as i128 - offset as i128 + length as i128;
    if 0 <= wide && wide <= u64::MAX as i128 {
        Some(wide as u64)
    } else {
        None
    }
}

/// The record `inode` with the given attributes set: the mode, truncated
/// to 16 bits, the owner and the group, each where one is given.
pub open spec fn spec_with_attributes(
    inode: Inode,
    mode: Option<u32>,
    uid: Option<u32>,
    gid: Option<u32>,
) -> Inode {
    Inode {
        mode: match mode {
            Some(mode) => (mode % 0x1_0000) as u16,
            None => inode.mode,
        },
        uid: match uid {
            Some(uid) => uid,
            None => inode.uid,
        },
        gid: match gid {
            Some(gid) => gid,
            None => inode.gid,
        },
        ..inode
    }
}

/// Computes `spec_with_attributes`.
pub fn with_attributes(inode: Inode, mode: Option<u32>, uid: Option<u32>, gid: Option<u32>) -> (changed:
    Inode)
    ensures
        changed == spec_with_attributes(inode, mode, uid, gid),
{
    let mut changed = inode;
    if let Some(mode) = mode {
        changed.mode = (mode % 0x1_0000) as u16;
    }
    if let Some(uid) = uid {
        changed.uid = uid;
    }
    if let Some(gid) = gid {
        changed.gid = gid;
    }
    changed
}

/// Index of the first child that a listing from `offset` on holds: the
/// child two places before `offset`, or the first one.
pub open spec fn spec_first_listed(offset: i64) -> int {
    if offset >= 2 {
        offset - 2
    } else {
        0
    }
}

/// The place of the first entry named `name` in the byte stream of the
/// directory that `record` describes, if there is one.
pub open spec fn spec_child_place<D: BlockDevice>(
    fs: &Filesystem<D>,
    record: Inode,
    name: Seq<char>,
) -> Option<nat> {
    spec_stream_lookup(
        RawByteFile::spec_load(fs, record).contents(fs),
        record.metadata[2] as int,
        record.metadata[1] as nat,
        name,
        0,
    )
}

/// The inode of the first entry of a listing, from place `from` on, that
/// has the name `name`.
pub open spec fn spec_listed_first(listing: Seq<(u64, Seq<char>)>, name: Seq<char>, from: nat)
    -> Option<u64>
    decreases
            (if from < listing.len() {
                listing.len() - from
            } else {
                0
            }),
{
    if from >= listing.len() {
        None
    } else if listing[from as int].1 == name {
        Some(listing[from as int].0)
    } else {
        spec_listed_first(listing, name, from + 1)
    }
}

/// Looking a name up in a stream finds the first entry of its listing
/// that has the name.
pub proof fn lemma_lookup_listed(
    contents: Seq<u8>,
    first: int,
    count: nat,
    name: Seq<char>,
    from: nat,
)
    ensures
        spec_listed_first(spec_stream_listing(contents, first, count), name, from) == (
        match spec_stream_lookup(contents, first, count, name, from) {
            Some(place) => Some(spec_entry_inode(contents, first, place)),
            None => None,
        }),
    decreases
            (if from < count {
                count - from
            } else {
                0
            }),
{
    if from < count && spec_entry_name(contents, first, from) != name {
        lemma_lookup_listed(contents, first, count, name, from + 1);
    }
}

/// The child that a directory with a consistent stream has under a name
/// is the first entry of its listing that has the name.
pub proof fn lemma_named_child<D: BlockDevice>(fs: &Filesystem<D>, parent: u64, name: Seq<char>)
    requires
        fs.inode_live(parent),
        spec_whole(fs, parent),
    ensures
        spec_named_child(fs, parent, name) == spec_listed_first(
            spec_listing_of(fs, parent),
            name,
            0,
        ),
{
    let record = fs.inode_view(parent)->Some_0;
    lemma_lookup_listed(
        RawByteFile::spec_load(fs, record).contents(fs),
        record.metadata[2] as int,
        record.metadata[1] as nat,
        name,
        0,
    );
}

/// Whether every entry of directory `ino`, whose stream can be read, names
/// an allocated inode whose record is cached, and the entries are few
/// enough for their cookies.
pub open spec fn spec_lists_cached<D: BlockDevice>(fs: &Filesystem<D>, ino: u64) -> bool {
    match fs.inode_view(ino) {
        Some(record) => {
            let contents = RawByteFile::spec_load(fs, record).contents(fs);
            &&& record.metadata[1] <= i64::MAX - 3
            &&& forall|place: nat|
                place < record.metadata[1] ==> fs.inode_live(
                    #[trigger] spec_entry_inode(contents, record.metadata[2] as int, place),
                ) && fs.cache.inodes@.contains_key(
                    spec_entry_inode(contents, record.metadata[2] as int, place),
                )
        },
        None => false,
    }
}

/// Whether a change to the file of inode `ino` has left the rest as it
/// was: every consistent file that shared no block with the file before
/// keeps its bytes and shares no block with the file after, and every
/// record but that of `ino` is as before.
pub open spec fn spec_framed<D: BlockDevice>(
    after: &Filesystem<D>,
    before: &Filesystem<D>,
    ino: u64,
) -> bool {
    match (before.inode_view(ino), after.inode_view(ino)) {
        (Some(record), Some(stored)) => Directory::framed(
            after,
            before,
            &RawByteFile::spec_load(after, stored),
            &RawByteFile::spec_load(before, record),
            ino,
        ),
        _ => false,
    }
}

/// Whether inode 1 of `fs` holds the root directory as it is first made:
/// a directory of mode 0o750 named "root" that is its own parent and has
/// no entries.
pub open spec fn spec_rooted<D: BlockDevice>(fs: &Filesystem<D>) -> bool {
    &&& spec_whole(fs, ROOT_INODE)
    &&& spec_name_of(fs, ROOT_INODE) == "root"@
    &&& spec_listing_of(fs, ROOT_INODE).len() == 0
    &&& match fs.inode_view(ROOT_INODE) {
        Some(stored) => stored.kind == FileType::Directory && stored.mode == 0o750
            && stored.metadata[0] == ROOT_INODE,
        None => false,
    }
}

/// What a failure to load the record of inode `index` tells: the inode is
/// not allocated, or the device refused, or it stores no record of it.
pub open spec fn spec_inode_failure<D: BlockDevice>(fs: &Filesystem<D>, index: u64, e: Error) -> bool {
    if fs.inode_live(index) {
        e is Io || (e is InsufficientBytes && fs.inode_view(index) is None)
    } else {
        e is OutOfBounds
    }
}

/// The inode of the first entry named `name` of directory `parent`, where
/// the directory is allocated and has a consistent byte stream that lists
/// such an entry.
pub open spec fn spec_named_child<D: BlockDevice>(
    fs: &Filesystem<D>,
    parent: u64,
    name: Seq<char>,
) -> Option<u64> {
    if fs.inode_live(parent) {
        match fs.inode_view(parent) {
            Some(record) => if RawByteFile::spec_load(fs, record).wf(fs) {
                match spec_child_place(fs, record, name) {
                    Some(place) => Some(
                        spec_entry_inode(
                            RawByteFile::spec_load(fs, record).contents(fs),
                            record.metadata[2] as int,
                            place,
                        ),
                    ),
                    None => None,
                }
            } else {
                None
            },
            None => None,
        }
    } else {
        None
    }
}

/// Whether the record of inode `child` names that inode.
pub open spec fn spec_names_itself<D: BlockDevice>(fs: &Filesystem<D>, child: u64) -> bool {
    match fs.inode_view(child) {
        Some(found) => found.index == child,
        None => false,
    }
}

/// Whether the directory `parent` of `fs` is allocated, has a consistent
/// byte stream, and lists no entry named `name`.
pub open spec fn spec_lacks<D: BlockDevice>(fs: &Filesystem<D>, parent: u64, name: Seq<char>) -> bool {
    &&& fs.inode_live(parent)
    &&& match fs.inode_view(parent) {
        Some(record) => RawByteFile::spec_load(fs, record).wf(fs) && spec_child_place(
            fs,
            record,
            name,
        ) is None,
        None => false,
    }
}

/// The bytes `contents` cut to `wanted` bytes or filled with zeros to as many.
pub open spec fn spec_resized(contents: Seq<u8>, wanted: u64) -> Seq<u8> {
    if wanted > contents.len() {
        contents + zeros((wanted - contents.len()) as nat)
    } else {
        contents.subrange(0, wanted as int)
    }
}

/// Whether the record of inode `ino` describes a consistent file with the
/// bytes `contents`.
pub open spec fn spec_holds<D: BlockDevice>(fs: &Filesystem<D>, ino: u64, contents: Seq<u8>) -> bool {
    match fs.inode_view(ino) {
        Some(stored) => {
            let file = RawByteFile::spec_load(fs, stored);
            &&& stored.index == ino
            &&& file.wf(fs)
            &&& file.contents(fs) == contents
        },
        None => false,
    }
}

/// Whether `entry` lists child `place` of the directory that `record`
/// describes: it has the inode and the name of that entry of the stream, and
/// the kind that the record of that inode tells.
pub open spec fn spec_listed<D: BlockDevice>(
    fs: &Filesystem<D>,
    record: Inode,
    place: nat,
    entry: DirectoryEntry,
) -> bool {
    let contents = RawByteFile::spec_load(fs, record).contents(fs);
    let first = record.metadata[2] as int;
    &&& entry.ino == spec_entry_inode(contents, first, place)
    &&& entry.name@ == spec_entry_name(contents, first, place)
    &&& fs.inode_live(entry.ino)
    &&& match fs.inode_view(entry.ino) {
        Some(found) => entry.kind == found.kind,
        None => false,
    }
}

impl<D: BlockDevice> FuseFs<D> {
    /// Wraps a filesystem for its host.
    pub fn new(filesystem: Filesystem<D>) -> (bridge: Self)
        ensures
            bridge.filesystem == filesystem,
    {
        Self { filesystem }
    }

    /// Prepares the filesystem for use: when inode 1 is not allocated,
    /// inode 0 is allocated as a sentinel, and a root directory named
    /// "root" with mode 0o750 is made at the lowest free inode. A forced
    /// flush follows. What became of writing the root back is handed on.
    pub fn init(&mut self) -> (result: Result<Done<()>, Error>)
        requires
            old(self).filesystem.wf(),
        ensures
            final(self).filesystem.wf(),
            RawByteFile::same_geometry(&final(self).filesystem, &old(self).filesystem),
            old(self).filesystem.superblock.inode_count <= ROOT_INODE ==> (
            result matches Err(e) && e is OutOfBounds) && final(self).filesystem.unchanged_from(
                &old(self).filesystem,
            ),
            result is Ok ==> final(self).filesystem.cache.clean() && final(self).filesystem.allocation_stored(),
            old(self).filesystem.inode_live(ROOT_INODE) ==> final(self).filesystem.settled_from(
                &old(self).filesystem,
            ) && (result matches Err(e) ==> e is Io),
            result matches Ok(done) ==> (if old(self).filesystem.inode_live(ROOT_INODE) {
                done.write_back is Ok
            } else {
                match done.write_back {
                    Ok(_) => spec_rooted(&final(self).filesystem),
                    Err(e) => e is Io || (e is OutOfMemory && final(self).filesystem.spec_free_block() is None),
                }
            }),
            result is Ok ==> {
                &&& !old(self).filesystem.inode_live(ROOT_INODE) ==> final(self).filesystem.inode_live(0)
                &&& final(self).filesystem.inode_live(ROOT_INODE)
                &&& forall|other: u64|
                    other > ROOT_INODE ==> #[trigger] final(self).filesystem.inode_live(other)
                        == old(self).filesystem.inode_live(other)
            },
    {
        let rooted = match self.filesystem.inodes.get(ROOT_INODE) {
            Ok(rooted) => rooted,
            Err(e) => {
                proof {
                    self.filesystem.lemma_consistent_counts();
                }
                return Err(e);
            },
        };
        proof {
            self.filesystem.lemma_consistent_counts();
            self.filesystem.lemma_live_bits(ROOT_INODE);
            self.filesystem.lemma_live_bits(0);
        }
        let mut write_back: Result<(), Error> = Ok(());
        if !rooted {
            proof {
                self.filesystem.lemma_free_index();
            }
            let sentinel_taken = match self.filesystem.inodes.get(0) {
                Ok(taken) => taken,
                Err(e) => {
                    return Err(e);
                },
            };
            if !sentinel_taken {
                if let Err(e) = self.filesystem.acquire_inode() {
                    return Err(e);
                }
            }
            let ghost guarded = self.filesystem;
            proof {
                guarded.lemma_free_index();
            }
            let root = match Directory::new(&mut self.filesystem, ROOT_INODE, "root", 0o750) {
                Ok(root) => root,
                Err(e) => {
                    return Err(e);
                },
            };
            let ghost made = self.filesystem;
            proof {
                reveal_strlit("root");
                guarded.lemma_live_bounded();
            }
            write_back = root.value.close(&mut self.filesystem);
            proof {
                assert(spec_listing(root.value.children@) =~= Seq::empty());
                assert(vstd::utf8::encode_utf8("root"@).len() <= u64::MAX) by {
                    vstd::utf8::encode_utf8_valid_utf8("root"@);
                    lemma_listing_length(root.value.children@);
                }
            }
            proof {
                self.filesystem.lemma_inodes_but(&made, &guarded, ROOT_INODE, true);
            }
        }
        let ghost rooted_state = self.filesystem;
        let flushed = self.filesystem.force_flush();
        proof {
            self.filesystem.lemma_same_allocation(&rooted_state);
            if spec_whole(&rooted_state, ROOT_INODE) {
                let record = rooted_state.inode_view(ROOT_INODE)->Some_0;
                assert(self.filesystem.inode_view(ROOT_INODE) == rooted_state.inode_view(
                    ROOT_INODE,
                ));
                RawByteFile::spec_load(&rooted_state, record).lemma_wf_stable(
                    &rooted_state,
                    &self.filesystem,
                );
                assert(RawByteFile::spec_load(&self.filesystem, record) == RawByteFile::spec_load(
                    &rooted_state,
                    record,
                ));
            }
        }
        match flushed {
            Ok(_) => Ok(Done { value: (), write_back }),
            Err(e) => Err(e),
        }
    }

    /// Grants every access.
    pub fn access(&mut self, ino: u64, mask: i32) -> (result: Result<(), Error>)
        ensures
            result is Ok,
            final(self).filesystem == old(self).filesystem,
    {
        Ok(())
    }

    /// Lists directory `ino` from `offset` on. At offset 0 the listing
    /// starts with "." for the directory itself and ".." for its parent.
    /// The children follow, from the one two places before `offset` on,
    /// each with its inode, its name, the kind that its record tells, and a
    /// cookie three more than its place.
    pub fn readdir(&mut self, ino: u64, offset: i64) -> (result: Result<Vec<DirectoryEntry>, Error>)
        requires
            old(self).filesystem.wf(),
        ensures
            final(self).filesystem.wf(),
            final(self).filesystem.cached_from(&old(self).filesystem),
            final(self).filesystem.same_records(&old(self).filesystem),
            !old(self).filesystem.inode_live(ino) ==> (result matches Err(e) && e is OutOfBounds),
            result matches Err(e) ==> e.load_failure(),
            spec_loads(&old(self).filesystem, ino) && spec_lists_cached(&old(self).filesystem, ino)
                ==> result is Ok,
            old(self).filesystem.inode_live(ino) ==> (match old(self).filesystem.inode_view(ino) {
                Some(record) => RawByteFile::spec_load(&old(self).filesystem, record).wf(
                    &old(self).filesystem,
                ) ==> (result matches Err(e) ==> {
                    ||| spec_load_failure(&old(self).filesystem, record, e)
                    ||| exists|place: nat|
                        place < record.metadata[1] && spec_inode_failure(
                            &old(self).filesystem,
                            #[trigger] spec_entry_inode(
                                RawByteFile::spec_load(&old(self).filesystem, record).contents(
                                    &old(self).filesystem,
                                ),
                                record.metadata[2] as int,
                                place,
                            ),
                            e,
                        )
                    ||| e is OutOfBounds && record.metadata[1] > i64::MAX - 3
                }),
                None => result matches Err(e) && (e is Io || e is InsufficientBytes),
            }),
            result matches Ok(entries) ==> {
                let head = if offset == 0 {
                    2int
                } else {
                    0int
                };
                &&& entries@.len() >= head
                &&& offset == 0 ==> entries@[0].ino == ino && entries@[0].cookie == 1
                    && entries@[0].kind == FileType::Directory && entries@[0].name@ == "."@
                    && entries@[1].cookie == 2 && entries@[1].kind == FileType::Directory
                    && entries@[1].name@ == ".."@
                &&& forall|at: int|
                    head <= at < entries@.len() ==> (#[trigger] entries@[at]).cookie
                        == spec_first_listed(offset) + (at - head) + 3
                &&& match old(self).filesystem.inode_view(ino) {
                    Some(record) => {
                        let skip = spec_first_listed(offset);
                        let count = record.metadata[1] as int;
                        &&& offset == 0 ==> entries@[1].ino == record.metadata[0]
                        &&& entries@.len() == head + (if skip < count {
                            count - skip
                        } else {
                            0
                        })
                        &&& RawByteFile::spec_load(&old(self).filesystem, record).wf(
                            &old(self).filesystem,
                        ) ==> forall|at: int|
                            head <= at < entries@.len() ==> spec_listed(
                                &old(self).filesystem,
                                record,
                                (skip + at - head) as nat,
                                #[trigger] entries@[at],
                            )
                    },
                    None => false,
                }
            },
    {
        let directory = match Directory::load(&mut self.filesystem, ino) {
            Ok(directory) => directory,
            Err(e) => {
                return Err(e);
            },
        };
        let ghost record = directory.inode;
        let ghost described = RawByteFile::spec_load(&old(self).filesystem, record);
        let ghost intact = described.wf(&old(self).filesystem);
        let mut entries: Vec<DirectoryEntry> = Vec::new();
        if offset == 0 {
            let parent = directory.inode.metadata[0];
            entries.push(
                DirectoryEntry { ino, cookie: 1, kind: FileType::Directory, name: ".".to_owned() },
            );
            entries.push(
                DirectoryEntry {
                    ino: parent,
                    cookie: 2,
                    kind: FileType::Directory,
                    name: "..".to_owned(),
                },
            );
        }
        let ghost head = entries@.len() as int;
        let first: u64 = if offset >= 2 {
            (offset - 2) as u64
        } else {
            0
        };
        let count = directory.children.len();
        if first >= count as u64 {
            return Ok(entries);
        }
        let mut at: usize = first as usize;
        while at < count
            invariant
                first <= at <= count,
                count == directory.children@.len(),
                count == record.metadata[1],
                first == spec_first_listed(offset),
                head == (if offset == 0 {
                    2int
                } else {
                    0int
                }),
                entries@.len() == head + (at - first),
                old(self).filesystem.wf(),
                old(self).filesystem.inode_live(ino),
                old(self).filesystem.inode_view(ino) == Some(record),
                described == RawByteFile::spec_load(&old(self).filesystem, record),
                intact == described.wf(&old(self).filesystem),
                self.filesystem.wf(),
                self.filesystem.cached_from(&old(self).filesystem),
                self.filesystem.same_records(&old(self).filesystem),
                self.filesystem.keeps_cached(&old(self).filesystem),
                offset == 0 ==> entries@[0].ino == ino && entries@[0].cookie == 1
                    && entries@[0].kind == FileType::Directory && entries@[0].name@ == "."@
                    && entries@[1].cookie == 2 && entries@[1].kind == FileType::Directory
                    && entries@[1].name@ == ".."@ && entries@[1].ino == record.metadata[0],
                forall|listed: int|
                    head <= listed < entries@.len() ==> (#[trigger] entries@[listed]).cookie
                        == first + (listed - head) + 3,
                intact ==> forall|place: nat|
                    place < directory.children@.len() ==> spec_entry_is(
                        described.contents(&old(self).filesystem),
                        record.metadata[2] as int,
                        place,
                        #[trigger] directory.children@[place as int],
                    ),
                intact ==> forall|listed: int|
                    head <= listed < entries@.len() ==> spec_listed(
                        &old(self).filesystem,
                        record,
                        (first + listed - head) as nat,
                        #[trigger] entries@[listed],
                    ),
            decreases count - at,
        {
            let child = &directory.children[at];
            let ghost before = entries@;
            let ghost loaded = self.filesystem;
            let inode = match self.filesystem.load_inode(child.inode) {
                Ok(inode) => inode,
                Err(e) => {
                    proof {
                        loaded.lemma_same_allocation(&old(self).filesystem);
                        if intact {
                            assert(spec_entry_is(
                                described.contents(&old(self).filesystem),
                                record.metadata[2] as int,
                                at as nat,
                                directory.children@[at as int],
                            ));
                            assert(spec_inode_failure(
                                &old(self).filesystem,
                                spec_entry_inode(
                                    described.contents(&old(self).filesystem),
                                    record.metadata[2] as int,
                                    at as nat,
                                ),
                                e,
                            ));
                        }
                    }
                    return Err(e);
                },
            };
            if at as u64 > (i64::MAX - 3) as u64 {
                return Err(Error::OutOfBounds);
            }
            entries.push(
                DirectoryEntry {
                    ino: child.inode,
                    cookie: at as i64 + 3,
                    kind: inode.kind,
                    name: child.name.clone(),
                },
            );
            proof {
                if intact {
                    assert(spec_entry_is(
                        described.contents(&old(self).filesystem),
                        record.metadata[2] as int,
                        at as nat,
                        directory.children@[at as int],
                    ));
                    loaded.lemma_same_allocation(&old(self).filesystem);
                    assert forall|listed: int|
                        head <= listed < entries@.len() implies spec_listed(
                        &old(self).filesystem,
                        record,
                        (first + listed - head) as nat,
                        #[trigger] entries@[listed],
                    ) by {
                        if listed < before.len() {
                            assert(entries@[listed] == before[listed]);
                        }
                    }
                }
            }
            at += 1;
        }
        Ok(entries)
    }

    /// The attributes of the child of directory `parent` that has the name
    /// `name`: of the inode that the first entry with that name names.
    /// `NotFound` when the directory has no such entry.
    pub fn lookup(&mut self, parent: u64, name: &str) -> (result: Result<FileAttributes, Error>)
        requires
            old(self).filesystem.wf(),
        ensures
            final(self).filesystem.wf(),
            final(self).filesystem.cached_from(&old(self).filesystem),
            final(self).filesystem.same_records(&old(self).filesystem),
            !old(self).filesystem.inode_live(parent) ==> (result matches Err(e) && e
                is OutOfBounds),
            spec_loads(&old(self).filesystem, parent) ==> (match spec_named_child(
                &old(self).filesystem,
                parent,
                name@,
            ) {
                Some(child) => old(self).filesystem.inode_live(child) && old(self).filesystem.cache.inodes@.contains_key(child) ==> result is Ok,
                None => result matches Err(e) && e is NotFound,
            }),
            old(self).filesystem.inode_live(parent) ==> (match old(self).filesystem.inode_view(
                parent,
            ) {
                Some(record) => RawByteFile::spec_load(&old(self).filesystem, record).wf(
                    &old(self).filesystem,
                ) ==> (match spec_stream_lookup(
                    RawByteFile::spec_load(&old(self).filesystem, record).contents(
                        &old(self).filesystem,
                    ),
                    record.metadata[2] as int,
                    record.metadata[1] as nat,
                    name@,
                    0,
                ) {
                    Some(place) => match result {
                        Ok(attributes) => {
                            let child = spec_entry_inode(
                                RawByteFile::spec_load(&old(self).filesystem, record).contents(
                                    &old(self).filesystem,
                                ),
                                record.metadata[2] as int,
                                place,
                            );
                            &&& old(self).filesystem.inode_live(child)
                            &&& match old(self).filesystem.inode_view(child) {
                                Some(found) => attributes == found.spec_attrs(
                                    &old(self).filesystem.superblock,
                                ),
                                None => false,
                            }
                        },
                        Err(e) => spec_load_failure(&old(self).filesystem, record, e)
                            || spec_inode_failure(
                            &old(self).filesystem,
                            spec_entry_inode(
                                RawByteFile::spec_load(&old(self).filesystem, record).contents(
                                    &old(self).filesystem,
                                ),
                                record.metadata[2] as int,
                                place,
                            ),
                            e,
                        ),
                    },
                    None => result matches Err(e) && (e is NotFound || spec_load_failure(
                        &old(self).filesystem,
                        record,
                        e,
                    )),
                }),
                None => result matches Err(e) && (e is Io || e is InsufficientBytes),
            }),
    {
        let directory = match Directory::load(&mut self.filesystem, parent) {
            Ok(directory) => directory,
            Err(e) => {
                return Err(e);
            },
        };
        let ghost record = directory.inode;
        let ghost described = RawByteFile::spec_load(&old(self).filesystem, record);
        let ghost contents = described.contents(&old(self).filesystem);
        proof {
            if described.wf(&old(self).filesystem) {
                lemma_lookup_parsed(
                    directory.children@,
                    contents,
                    record.metadata[2] as int,
                    name@,
                    0,
                );
            }
        }
        let child = match directory.get_child_inode(DirectoryChildIdentifier::Name(name)) {
            Ok(child) => child,
            Err(e) => {
                return Err(e);
            },
        };
        let ghost loaded = self.filesystem;
        proof {
            loaded.lemma_same_allocation(&old(self).filesystem);
        }
        let inode = match self.filesystem.load_inode(child) {
            Ok(inode) => inode,
            Err(e) => {
                return Err(e);
            },
        };
        Ok(inode.attrs(&self.filesystem.superblock))
    }

    /// Removes the child of directory `parent` that has the name `name`,
    /// and writes the directory back. `NotFound` when the directory lists no
    /// such child. On success the inode of the child is free, and every other
    /// inode is allocated as before. What became of writing the directory
    /// back is handed on; where it succeeded the directory lists what it
    /// listed but the child, the blocks of the child are free again, and
    /// every other file is as it was.
    pub fn rmdir(&mut self, parent: u64, name: &str) -> (result: Result<Done<()>, Error>)
        requires
            old(self).filesystem.wf(),
        ensures
            final(self).filesystem.wf(),
            RawByteFile::same_geometry(&final(self).filesystem, &old(self).filesystem),
            final(self).filesystem.inodes_within(&old(self).filesystem),
            result is Ok ==> final(self).filesystem.superblock.inodes_free > old(self).filesystem.superblock.inodes_free,
            !old(self).filesystem.inode_live(parent) ==> (result matches Err(e) && e
                is OutOfBounds),
            old(self).filesystem.inode_live(parent) ==> (match old(self).filesystem.inode_view(
                parent,
            ) {
                Some(record) => RawByteFile::spec_load(&old(self).filesystem, record).wf(
                    &old(self).filesystem,
                ) ==> (match spec_child_place(&old(self).filesystem, record, name@) {
                    Some(place) => result matches Err(e) ==> spec_load_failure(
                        &old(self).filesystem,
                        record,
                        e,
                    ) || spec_removal_failure(
                        &old(self).filesystem,
                        spec_entry_inode(
                            RawByteFile::spec_load(&old(self).filesystem, record).contents(
                                &old(self).filesystem,
                            ),
                            record.metadata[2] as int,
                            place,
                        ),
                        e,
                    ),
                    None => result matches Err(e) && (e is NotFound || spec_load_failure(
                        &old(self).filesystem,
                        record,
                        e,
                    )),
                }),
                None => result matches Err(e) && (e is Io || e is InsufficientBytes),
            }),
            result is Ok ==> (match spec_named_child(&old(self).filesystem, parent, name@) {
                Some(child) => spec_names_itself(&old(self).filesystem, child) ==> final(self).filesystem.inodes_but(&old(self).filesystem, child, false),
                None => true,
            }),
            result matches Ok(done) ==> (done.write_back is Ok ==> (match spec_named_child(
                &old(self).filesystem,
                parent,
                name@,
            ) {
                Some(child) => spec_two_files(&old(self).filesystem, parent, child) ==> {
                    &&& spec_whole(&final(self).filesystem, parent)
                    &&& spec_name_of(&final(self).filesystem, parent) == spec_name_of(
                        &old(self).filesystem,
                        parent,
                    )
                    &&& spec_listing_of(&final(self).filesystem, parent) == spec_without(
                        spec_listing_of(&old(self).filesystem, parent),
                        child,
                    )
                    &&& spec_rest_kept(
                        &final(self).filesystem,
                        &old(self).filesystem,
                        parent,
                        child,
                    )
                },
                None => true,
            })),
    {
        let mut directory = match Directory::load(&mut self.filesystem, parent) {
            Ok(directory) => directory,
            Err(e) => {
                proof {
                    self.filesystem.lemma_inodes_fewer(&old(self).filesystem);
                }
                return Err(e);
            },
        };
        proof {
            let record = directory.inode;
            let described = RawByteFile::spec_load(&old(self).filesystem, record);
            if described.wf(&old(self).filesystem) {
                lemma_lookup_parsed(
                    directory.children@,
                    described.contents(&old(self).filesystem),
                    record.metadata[2] as int,
                    name@,
                    0,
                );
            }
        }
        let ghost loaded = self.filesystem;
        let ghost listed = directory.children@;
        let removed = directory.remove_child(
            &mut self.filesystem,
            DirectoryChildIdentifier::Name(name),
        );
        let ghost changed = self.filesystem;
        proof {
            loaded.lemma_same_allocation(&old(self).filesystem);
            if let Some(child) = spec_identified(listed, DirectoryChildIdentifier::Name(name)) {
                assert(loaded.inode_live(child) == old(self).filesystem.inode_live(child));
                assert(loaded.inode_view(child) == old(self).filesystem.inode_view(child));
                if let Some(found) = old(self).filesystem.inode_view(child) {
                    let held = RawByteFile::spec_load(&old(self).filesystem, found);
                    assert(held == RawByteFile::spec_load(&loaded, found));
                    if held.wf(&old(self).filesystem) {
                        held.lemma_wf_stable(&old(self).filesystem, &loaded);
                    }
                }
            }
            if let Some(child) = spec_identified(listed, DirectoryChildIdentifier::Name(name)) {
                if removed is Ok && spec_names_itself(&old(self).filesystem, child) {
                    assert(loaded.inode_view(child) == old(self).filesystem.inode_view(child));
                    assert forall|other: u64| other != child implies #[trigger]
                        changed.inode_live(other) == old(self).filesystem.inode_live(other) by {
                        assert(loaded.inode_live(other) == old(self).filesystem.inode_live(
                            other,
                        ));
                    }
                    assert(loaded.inode_live(child) == old(self).filesystem.inode_live(child));
                }
            }
        }
        proof {
            if let Some(child) = spec_identified(listed, DirectoryChildIdentifier::Name(name)) {
                if removed is Ok && spec_whole(&old(self).filesystem, parent) && spec_two_files(
                    &old(self).filesystem,
                    parent,
                    child,
                ) {
                    let one = old(self).filesystem.inode_view(parent)->Some_0;
                    let found = old(self).filesystem.inode_view(child)->Some_0;
                    let above = RawByteFile::spec_load(&old(self).filesystem, one);
                    let below = RawByteFile::spec_load(&old(self).filesystem, found);
                    above.lemma_apart_stable(&below, &below, &old(self).filesystem, &loaded);
                    below.lemma_wf_stable(&old(self).filesystem, &loaded);
                    assert(RawByteFile::spec_load(&loaded, found) == below);
                    assert forall|block: u64|
                        !(#[trigger] directory.file.owns(&loaded, block) && below.owns(
                            &loaded,
                            block,
                        )) by {
                        assert(directory.file.owns(&loaded, block) == above.owns(&loaded, block));
                    }
                    directory.file.lemma_apart_released(&changed, &loaded, found);
                }
            }
        }
        let ghost held = directory.file;
        let write_back = directory.close(&mut self.filesystem);
        proof {
            loaded.lemma_inodes_fewer(&old(self).filesystem);
            changed.lemma_inodes_within(&loaded, &old(self).filesystem);
            self.filesystem.lemma_inodes_fewer(&changed);
            self.filesystem.lemma_inodes_within(&changed, &old(self).filesystem);
            if let Some(child) = spec_identified(listed, DirectoryChildIdentifier::Name(name)) {
                if removed is Ok && write_back is Ok && spec_two_files(
                    &old(self).filesystem,
                    parent,
                    child,
                ) {
                    let one = old(self).filesystem.inode_view(parent)->Some_0;
                    let found = old(self).filesystem.inode_view(child)->Some_0;
                    let above = RawByteFile::spec_load(&old(self).filesystem, one);
                    let below = RawByteFile::spec_load(&old(self).filesystem, found);
                    assert(held.wf(&changed) && held.fixed(&changed, &loaded));
                    assert(!self.filesystem.inode_live(child));
                    assert forall|other: RawByteFile| #[trigger]
                        other.wf(&old(self).filesystem) && other.apart(
                            &spec_chain(&old(self).filesystem, parent),
                            &old(self).filesystem,
                        ) && other.apart(
                            &spec_chain(&old(self).filesystem, child),
                            &old(self).filesystem,
                        ) implies other.wf(&self.filesystem) && other.contents(&self.filesystem)
                        == other.contents(&old(self).filesystem) && other.apart(
                        &spec_chain(&self.filesystem, parent),
                        &self.filesystem,
                    ) && other.apart(&spec_chain(&self.filesystem, child), &self.filesystem)
                        && other.fixed(&self.filesystem, &old(self).filesystem) by {
                        other.lemma_apart_stable(&above, &held, &old(self).filesystem, &loaded);
                        other.lemma_apart_stable(&below, &below, &old(self).filesystem, &loaded);
                        other.lemma_apart_released(&changed, &loaded, found);
                        other.lemma_fixed_apart(&held, &loaded, &changed);
                        assert(other.wf(&self.filesystem));
                        other.lemma_fixed_twice(&changed, &loaded, &old(self).filesystem);
                        other.lemma_fixed_twice(&self.filesystem, &changed, &old(self).filesystem);
                        assert forall|block: u64|
                            !(#[trigger] other.owns(&self.filesystem, block) && spec_chain(
                                &self.filesystem,
                                child,
                            ).owns(&self.filesystem, block)) by {
                            assert(!spec_chain(&self.filesystem, child).owns(
                                &self.filesystem,
                                block,
                            ));
                        }
                    }
                    assert forall|other: u64| other != parent && other != child implies
                        #[trigger] self.filesystem.inode_view(other) == old(self).filesystem.inode_view(other) by {
                        assert(changed.inode_view(other) == loaded.inode_view(other));
                        assert(loaded.inode_view(other) == old(self).filesystem.inode_view(other));
                    }
                }
            }
            if let Some(child) = spec_identified(listed, DirectoryChildIdentifier::Name(name)) {
                if removed is Ok && spec_names_itself(&old(self).filesystem, child) {
                    self.filesystem.lemma_inodes_but(
                        &changed,
                        &old(self).filesystem,
                        child,
                        false,
                    );
                }
            }
        }
        match removed {
            Ok(_) => Ok(Done { value: (), write_back }),
            Err(e) => Err(e),
        }
    }

    /// Reads up to `size` bytes of regular file `ino` from `offset` on.
    /// `OutOfBounds` when `offset` is negative or beyond the end. Nothing is
    /// allocated, released or written.
    pub fn read(&mut self, ino: u64, offset: i64, size: u32) -> (result: Result<Vec<u8>, Error>)
        requires
            old(self).filesystem.wf(),
        ensures
            final(self).filesystem.wf(),
            RawByteFile::same_geometry(&final(self).filesystem, &old(self).filesystem),
            final(self).filesystem.cached_from(&old(self).filesystem),
            final(self).filesystem.same_records(&old(self).filesystem),
            !old(self).filesystem.inode_live(ino) ==> (result matches Err(e) && e is OutOfBounds),
            offset < 0 ==> (result matches Err(e) && e is OutOfBounds),
            offset >= 0 && old(self).filesystem.inode_live(ino) && old(self).filesystem.cache.inodes@.contains_key(ino) ==> (
            match old(self).filesystem.inode_view(ino) {
                Some(record) => {
                    let file = RawByteFile::spec_load(&old(self).filesystem, record);
                    offset <= file.size && file.wf(&old(self).filesystem) && file.cached(
                        &old(self).filesystem,
                    ) && RegularFile::spec_read_length(file.size, offset as u64, size as u64)
                        <= usize::MAX ==> result is Ok
                },
                None => true,
            }),
            offset >= 0 && old(self).filesystem.inode_live(ino) ==> (
            match old(self).filesystem.inode_view(ino) {
                Some(record) => {
                    let file = RawByteFile::spec_load(&old(self).filesystem, record);
                    &&& offset > file.size ==> (result matches Err(e) && (e is OutOfBounds || e
                        is Io))
                    &&& offset <= file.size && file.wf(&old(self).filesystem) ==> (
                    result matches Err(e) ==> e is Io || (e is OutOfBounds
                        && RegularFile::spec_read_length(file.size, offset as u64, size as u64)
                        > usize::MAX))
                },
                None => result matches Err(e) && (e is Io || e is InsufficientBytes),
            }),
            result matches Ok(bytes) ==> bytes@.len() <= size && (match old(self).filesystem.inode_view(ino) {
                Some(record) => {
                    let file = RawByteFile::spec_load(&old(self).filesystem, record);
                    &&& offset <= file.size
                    &&& bytes@.len() == RegularFile::spec_read_length(
                        file.size,
                        offset as u64,
                        size as u64,
                    )
                    &&& file.wf(&old(self).filesystem) ==> bytes@ == file.contents(
                        &old(self).filesystem,
                    ).subrange(offset as int, offset + bytes@.len())
                },
                None => false,
            }),
    {
        if offset < 0 {
            return Err(Error::OutOfBounds);
        }
        let mut file = match RegularFile::load(&mut self.filesystem, ino) {
            Ok(file) => file,
            Err(e) => {
                return Err(e);
            },
        };
        let ghost loaded = self.filesystem;
        let ghost described = file.file;
        proof {
            if described.wf(&old(self).filesystem) {
                described.lemma_wf_stable(&old(self).filesystem, &loaded);
            }
        }
        let data = file.read(&mut self.filesystem, offset as u64, size as u64);
        data
    }

    /// Writes `data` to regular file `ino` at `offset`, and writes the file
    /// back. Returns the number of bytes written, which is all of them.
    /// `OutOfBounds` when `offset` is negative or beyond the end. From then
    /// on the record of the inode describes the bytes of the file with `data`
    /// laid over them at `offset`.
    pub fn write(&mut self, ino: u64, offset: i64, data: &[u8]) -> (result: Result<Done<u32>, Error>)
        requires
            old(self).filesystem.wf(),
        ensures
            final(self).filesystem.wf(),
            RawByteFile::same_geometry(&final(self).filesystem, &old(self).filesystem),
            final(self).filesystem.same_inodes(&old(self).filesystem),
            !old(self).filesystem.inode_live(ino) ==> (result matches Err(e) && e is OutOfBounds),
            offset < 0 || data@.len() > u32::MAX ==> (result matches Err(e) && e is OutOfBounds),
            result matches Ok(done) ==> done.value == data@.len(),
            offset >= 0 && data@.len() <= u32::MAX && old(self).filesystem.inode_live(ino) ==> (
            match old(self).filesystem.inode_view(ino) {
                Some(record) => {
                    let file = RawByteFile::spec_load(&old(self).filesystem, record);
                    &&& offset > file.size ==> (result matches Err(e) && (e is OutOfBounds
                        || e is Io))
                    &&& offset <= file.size && file.wf(&old(self).filesystem)
                        && record.index == ino ==> (match result {
                        Ok(_) => {
                            &&& spec_holds(
                                &final(self).filesystem,
                                ino,
                                spec_written(
                                    file.contents(&old(self).filesystem),
                                    offset as int,
                                    data@,
                                ),
                            )
                            &&& spec_framed(&final(self).filesystem, &old(self).filesystem, ino)
                        },
                        Err(e) => {
                            ||| e is Io
                            ||| e is OutOfMemory && final(self).filesystem.spec_free_block()
                                is None
                            ||| e is OutOfBounds && offset + data@.len() > u64::MAX
                        },
                    })
                },
                None => result is Err,
            }),
    {
        if offset < 0 || data.len() > u32::MAX as usize {
            return Err(Error::OutOfBounds);
        }
        let mut file = match RegularFile::load(&mut self.filesystem, ino) {
            Ok(file) => file,
            Err(e) => {
                return Err(e);
            },
        };
        let ghost loaded = self.filesystem;
        let ghost described = file.file;
        proof {
            old(self).filesystem.lemma_live_bounded();
            if described.wf(&old(self).filesystem) {
                described.lemma_wf_stable(&old(self).filesystem, &loaded);
            }
        }
        let written = file.write(&mut self.filesystem, offset as u64, data);
        let ghost changed = self.filesystem;
        let ghost held = file;
        let write_back = file.close(&mut self.filesystem);
        proof {
            self.filesystem.lemma_same_allocation(&changed);
            if written is Ok && described.wf(&old(self).filesystem) && offset <= described.size && held.inode.index == ino {
                let stored = self.filesystem.inode_view(ino)->Some_0;
                held.file.lemma_described(&changed, &self.filesystem, stored);
                let after = RawByteFile::spec_load(&self.filesystem, stored);
                assert forall|other: RawByteFile| #[trigger]
                    other.wf(&old(self).filesystem) && other.apart(
                        &described,
                        &old(self).filesystem,
                    ) implies other.wf(&self.filesystem) && other.contents(&self.filesystem)
                    == other.contents(&old(self).filesystem) && other.apart(
                    &after,
                    &self.filesystem,
                ) && other.fixed(&self.filesystem, &old(self).filesystem) by {
                    other.lemma_apart_stable(
                        &described,
                        &described,
                        &old(self).filesystem,
                        &loaded,
                    );
                    assert(other.wf(&changed) && other.apart(&held.file, &changed));
                    other.lemma_apart_seen(&held.file, &changed, &self.filesystem);
                    other.lemma_fixed_twice(&changed, &loaded, &old(self).filesystem);
                    other.lemma_fixed_twice(&self.filesystem, &changed, &old(self).filesystem);
                    assert forall|block: u64|
                        !(#[trigger] other.owns(&self.filesystem, block) && after.owns(
                            &self.filesystem,
                            block,
                        )) by {
                        assert(after.owns(&self.filesystem, block) == held.file.owns(
                            &self.filesystem,
                            block,
                        ));
                    }
                }
            }
        }
        match written {
            Ok(_) => Ok(Done { value: data.len() as u32, write_back }),
            Err(e) => Err(e),
        }
    }

    /// Resizes regular file `ino` to its size less `offset` plus `length`,
    /// by extending or shrinking it, sets its mode, and writes it back.
    /// `OutOfBounds` when that is no size. From then on the record of the
    /// inode describes the bytes of the file, cut or filled with zeros to the
    /// new size, and every other file is as it was. What became of writing
    /// the record through is handed on.
    pub fn fallocate(&mut self, ino: u64, offset: i64, length: i64, mode: i32) -> (result: Result<
        Done<()>,
        Error,
    >)
        requires
            old(self).filesystem.wf(),
        ensures
            final(self).filesystem.wf(),
            RawByteFile::same_geometry(&final(self).filesystem, &old(self).filesystem),
            final(self).filesystem.same_inodes(&old(self).filesystem),
            !old(self).filesystem.inode_live(ino) ==> (result matches Err(e) && e is OutOfBounds),
            old(self).filesystem.inode_live(ino) ==> (match old(self).filesystem.inode_view(ino) {
                Some(record) => {
                    let file = RawByteFile::spec_load(&old(self).filesystem, record);
                    match spec_fallocate_size(record.size, offset, length) {
                        Some(wanted) => file.wf(&old(self).filesystem)
                            && record.index == ino ==> (match result {
                            Ok(_) => {
                                &&& spec_holds(
                                    &final(self).filesystem,
                                    ino,
                                    spec_resized(file.contents(&old(self).filesystem), wanted),
                                )
                                &&& final(self).filesystem.inode_view(ino) matches Some(stored)
                                    && stored.mode == mode as u32 % 0x1_0000
                                &&& spec_framed(
                                    &final(self).filesystem,
                                    &old(self).filesystem,
                                    ino,
                                )
                            },
                            Err(e) => e is Io || (e is OutOfMemory && final(self).filesystem.spec_free_block() is None),
                        }),
                        None => result matches Err(e) && (e is OutOfBounds || e is Io),
                    }
                },
                None => result is Err,
            }),
    {
        let mut file = match RegularFile::load(&mut self.filesystem, ino) {
            Ok(file) => file,
            Err(e) => {
                return Err(e);
            },
        };
        let ghost loaded = self.filesystem;
        let ghost described = file.file;
        proof {
            old(self).filesystem.lemma_live_bounded();
            if described.wf(&old(self).filesystem) {
                described.lemma_wf_stable(&old(self).filesystem, &loaded);
            }
        }
        let size = file.file.size;
        let new_size = match fallocate_size(size, offset, length) {
            Some(new_size) => new_size,
            None => {
                return Err(Error::OutOfBounds);
            },
        };
        let ghost sized = file.file;
        let resized = if new_size > size {
            file.file.extend(&mut self.filesystem, new_size)
        } else {
            file.file.shrink(&mut self.filesystem, new_size)
        };
        if let Err(e) = resized {
            return Err(e);
        }
        file.modified = true;
        file.inode.mode = (mode as u32 % 0x1_0000) as u16;
        let ghost changed = self.filesystem;
        let ghost held = file;
        proof {
            if described.wf(&old(self).filesystem) {
                if changed.unchanged_from(&loaded) {
                    changed.lemma_records_ignore_allocation(&loaded);
                    described.lemma_wf_stable(&loaded, &changed);
                }
                assert(held.file.contents(&changed) =~= spec_resized(
                    described.contents(&old(self).filesystem),
                    new_size,
                ));
            }
        }
        let write_back = file.close(&mut self.filesystem);
        proof {
            if described.wf(&old(self).filesystem)
                && held.inode.index == ino {
                let stored = self.filesystem.inode_view(ino)->Some_0;
                held.file.lemma_described(&changed, &self.filesystem, stored);
                self.filesystem.lemma_same_allocation(&changed);
                let after = RawByteFile::spec_load(&self.filesystem, stored);
                assert forall|other: RawByteFile| #[trigger]
                    other.wf(&old(self).filesystem) && other.apart(
                        &described,
                        &old(self).filesystem,
                    ) implies other.wf(&self.filesystem) && other.contents(&self.filesystem)
                    == other.contents(&old(self).filesystem) && other.apart(
                    &after,
                    &self.filesystem,
                ) && other.fixed(&self.filesystem, &old(self).filesystem) by {
                    other.lemma_apart_stable(
                        &described,
                        &described,
                        &old(self).filesystem,
                        &loaded,
                    );
                    if new_size > size {
                        other.lemma_apart_kept(&held.file, &changed, &sized, &loaded);
                    } else if new_size == size && (new_size > 0 || sized.block_count == 0) {
                        other.lemma_apart_stable(&described, &held.file, &loaded, &changed);
                    } else {
                        other.lemma_apart_cut(&held.file, &changed, &sized, &loaded);
                    }
                    assert(other.wf(&changed) && other.apart(&held.file, &changed));
                    other.lemma_apart_seen(&held.file, &changed, &self.filesystem);
                    other.lemma_fixed_twice(&changed, &loaded, &old(self).filesystem);
                    other.lemma_fixed_twice(&self.filesystem, &changed, &old(self).filesystem);
                    assert forall|block: u64|
                        !(#[trigger] other.owns(&self.filesystem, block) && after.owns(
                            &self.filesystem,
                            block,
                        )) by {
                        assert(after.owns(&self.filesystem, block) == held.file.owns(
                            &self.filesystem,
                            block,
                        ));
                    }
                }
                assert forall|other: u64| other != ino implies
                    #[trigger] self.filesystem.inode_view(other) == old(self).filesystem.inode_view(other) by {
                    reveal(RawByteFile::extends);
                    if changed.unchanged_from(&loaded) {
                        changed.lemma_records_ignore_allocation(&loaded);
                    }
                    assert(changed.inode_view(other) == loaded.inode_view(other));
                    assert(loaded.inode_view(other) == old(self).filesystem.inode_view(other));
                }
            }
        }
        Ok(Done { value: (), write_back })
    }

    /// The attributes of inode `ino`. `OutOfBounds` when the inode is not
    /// allocated. A record that the cache holds is returned without the
    /// device; one that it does not hold is read, which fails with `Io` when
    /// the device refuses and with `InsufficientBytes` when what is stored is
    /// no record.
    pub fn getattr(&mut self, ino: u64) -> (result: Result<FileAttributes, Error>)
        requires
            old(self).filesystem.wf(),
        ensures
            final(self).filesystem.wf(),
            final(self).filesystem.cached_from(&old(self).filesystem),
            final(self).filesystem.same_records(&old(self).filesystem),
            match result {
                Ok(attributes) => old(self).filesystem.inode_live(ino) && (match old(self).filesystem.inode_view(ino) {
                    Some(record) => attributes == record.spec_attrs(
                        &old(self).filesystem.superblock,
                    ),
                    None => false,
                }),
                Err(e) => if old(self).filesystem.inode_live(ino) {
                    &&& !old(self).filesystem.cache.inodes@.contains_key(ino)
                    &&& e is Io || (e is InsufficientBytes && old(self).filesystem.inode_view(ino)
                        is None)
                } else {
                    e is OutOfBounds
                },
            },
    {
        let inode = match self.filesystem.load_inode(ino) {
            Ok(inode) => inode,
            Err(e) => {
                return Err(e);
            },
        };
        Ok(inode.attrs(&self.filesystem.superblock))
    }

    /// Sets the mode, the owner and the group of inode `ino`, each where
    /// one is given, stores the record, and returns the new attributes.
    pub fn setattr(
        &mut self,
        ino: u64,
        mode: Option<u32>,
        uid: Option<u32>,
        gid: Option<u32>,
    ) -> (result: Result<FileAttributes, Error>)
        requires
            old(self).filesystem.wf(),
        ensures
            final(self).filesystem.wf(),
            RawByteFile::same_geometry(&final(self).filesystem, &old(self).filesystem),
            final(self).filesystem.same_inodes(&old(self).filesystem),
            match result {
                Ok(attributes) => old(self).filesystem.inode_live(ino) && (match old(self).filesystem.inode_view(ino) {
                    Some(record) => {
                        let changed = spec_with_attributes(record, mode, uid, gid);
                        &&& attributes == changed.spec_attrs(&old(self).filesystem.superblock)
                        &&& final(self).filesystem.with_inode_record(&old(self).filesystem, changed)
                    },
                    None => false,
                }),
                Err(e) => if old(self).filesystem.inode_live(ino) {
                    match old(self).filesystem.inode_view(ino) {
                        Some(record) => e is Io || (e is OutOfBounds && record.index >= old(self).filesystem.superblock.inode_count),
                        None => e is Io || e is InsufficientBytes,
                    }
                } else {
                    e is OutOfBounds
                },
            },
    {
        let inode = match self.filesystem.load_inode(ino) {
            Ok(inode) => inode,
            Err(e) => {
                return Err(e);
            },
        };
        let ghost loaded = self.filesystem;
        let changed = with_attributes(inode, mode, uid, gid);
        if let Err(e) = self.filesystem.flush_inode(&changed) {
            return Err(e);
        }
        proof {
            assert(self.filesystem.with_inode_record(&old(self).filesystem, changed));
        }
        Ok(changed.attrs(&self.filesystem.superblock))
    }

    /// Checks that inode `ino` can be opened as a regular file.
    /// `AccessDenied` when it is something else.
    pub fn open(&mut self, ino: u64) -> (result: Result<(), Errno>)
        requires
            old(self).filesystem.wf(),
        ensures
            final(self).filesystem.wf(),
            final(self).filesystem.cached_from(&old(self).filesystem),
            final(self).filesystem.same_records(&old(self).filesystem),
            match result {
                Ok(_) => old(self).filesystem.inode_live(ino) && (match old(self).filesystem.inode_view(ino) {
                    Some(record) => record.kind == FileType::RegularFile,
                    None => false,
                }),
                Err(e) => if !old(self).filesystem.inode_live(ino) {
                    e == Errno::IllegalSeek
                } else {
                    match old(self).filesystem.inode_view(ino) {
                        Some(record) => (e == Errno::AccessDenied && record.kind
                            != FileType::RegularFile) || e == Errno::Io,
                        None => e == Errno::Io || e == Errno::NoBuffers,
                    }
                },
            },
    {
        match self.filesystem.load_inode(ino) {
            Ok(inode) => {
                if kind_is(inode.kind, FileType::RegularFile) {
                    Ok(())
                } else {
                    Err(Errno::AccessDenied)
                }
            },
            Err(e) => Err(e.errno()),
        }
    }

    /// Checks that inode `ino` can be opened as a directory. `AccessDenied`
    /// when it is something else.
    pub fn opendir(&mut self, ino: u64) -> (result: Result<(), Errno>)
        requires
            old(self).filesystem.wf(),
        ensures
            final(self).filesystem.wf(),
            final(self).filesystem.cached_from(&old(self).filesystem),
            final(self).filesystem.same_records(&old(self).filesystem),
            match result {
                Ok(_) => old(self).filesystem.inode_live(ino) && (match old(self).filesystem.inode_view(ino) {
                    Some(record) => record.kind == FileType::Directory,
                    None => false,
                }),
                Err(e) => if !old(self).filesystem.inode_live(ino) {
                    e == Errno::IllegalSeek
                } else {
                    match old(self).filesystem.inode_view(ino) {
                        Some(record) => (e == Errno::AccessDenied && record.kind
                            != FileType::Directory) || e == Errno::Io,
                        None => e == Errno::Io || e == Errno::NoBuffers,
                    }
                },
            },
    {
        match self.filesystem.load_inode(ino) {
            Ok(inode) => {
                if kind_is(inode.kind, FileType::Directory) {
                    Ok(())
                } else {
                    Err(Errno::AccessDenied)
                }
            },
            Err(e) => Err(e.errno()),
        }
    }

    /// Makes a regular file named `name` in directory `parent`, writes it
    /// back, and returns its attributes. The file takes the lowest free
    /// inode, which is allocated from then on; `OutOfMemory` when none is free.
    /// What became of writing the parent and the file back is handed on;
    /// where it succeeded the parent lists the file behind what it listed,
    /// and every other file is as it was.
    pub fn mknod(&mut self, parent: u64, name: &str, mode: u32) -> (result: Result<
        Done<FileAttributes>,
        Error,
    >)
        requires
            old(self).filesystem.wf(),
        ensures
            final(self).filesystem.wf(),
            RawByteFile::same_geometry(&final(self).filesystem, &old(self).filesystem),
            old(self).filesystem.spec_free_inode() is None ==> (result matches Err(e) && e
                is OutOfMemory),
            old(self).filesystem.spec_free_inode() is Some && old(self).filesystem.spec_free_inode() != Some(parent) && !old(self).filesystem.inode_live(
                parent,
            ) ==> (result matches Err(e) && (e is OutOfBounds || e is Io)),
            result matches Ok(done) ==> old(self).filesystem.spec_free_inode() == Some(
                done.value.ino,
            ) && done.value.kind == FileType::RegularFile && done.value.perm == mode % 0x1_0000
                && done.value.size == 0,
            old(self).filesystem.spec_free_inode() is Some && old(self).filesystem.spec_free_inode()
                != Some(parent) && old(self).filesystem.inode_live(parent) ==> (
            match old(self).filesystem.inode_view(parent) {
                Some(record) => RawByteFile::spec_load(&old(self).filesystem, record).wf(
                    &old(self).filesystem,
                ) ==> (result matches Err(e) ==> {
                    ||| spec_load_failure(&old(self).filesystem, record, e)
                    ||| e is OutOfBounds && vstd::utf8::encode_utf8(name@).len() > 65535
                    ||| e is NameOrInodeDuplicate && spec_listing_of(
                        &old(self).filesystem,
                        parent,
                    ).contains((old(self).filesystem.spec_free_inode()->Some_0, name@))
                }),
                None => result matches Err(e) && (e is Io || e is InsufficientBytes),
            }),
            result matches Ok(done) ==> (old(self).filesystem.inode_live(parent) && spec_whole(
                &old(self).filesystem,
                parent,
            ) ==> match done.write_back {
                Ok(_) => {
                    &&& spec_whole(&final(self).filesystem, parent)
                    &&& spec_listing_of(&final(self).filesystem, parent) == spec_listing_of(
                        &old(self).filesystem,
                        parent,
                    ).push((done.value.ino, name@))
                    &&& spec_name_of(&final(self).filesystem, parent) == spec_name_of(
                        &old(self).filesystem,
                        parent,
                    )
                    &&& spec_rest_kept(
                        &final(self).filesystem,
                        &old(self).filesystem,
                        parent,
                        done.value.ino,
                    )
                },
                Err(e) => {
                    ||| e is Io
                    ||| e is OutOfMemory && final(self).filesystem.spec_free_block() is None
                    ||| e is OutOfBounds && vstd::utf8::encode_utf8(
                        spec_name_of(&old(self).filesystem, parent),
                    ).len() + spec_listing_length(
                        spec_listing_of(&old(self).filesystem, parent).push(
                            (done.value.ino, name@),
                        ),
                    ) > u64::MAX
                },
            }),
            result matches Ok(done) ==> final(self).filesystem.inodes_but(
                &old(self).filesystem,
                done.value.ino,
                true,
            ),
            result matches Ok(done) ==> (
            match final(self).filesystem.inode_view(done.value.ino) {
                Some(stored) => {
                    &&& stored.index == done.value.ino
                    &&& stored.kind == FileType::RegularFile
                    &&& stored.mode == mode % 0x1_0000
                    &&& stored.metadata[0] == parent
                    &&& stored.size == 0 && stored.block_count == 0
                    &&& stored.first_block == NULL_BLOCK && stored.last_block == NULL_BLOCK
                    &&& spec_holds(&final(self).filesystem, done.value.ino, Seq::empty())
                },
                None => false,
            }),
    {
        let file = match RegularFile::new(&mut self.filesystem, parent, name, mode) {
            Ok(file) => file,
            Err(e) => {
                return Err(e);
            },
        };
        proof {
            old(self).filesystem.lemma_free_index();
        }
        let parent_written = file.write_back;
        let file = file.value;
        let attributes = file.inode.attrs(&self.filesystem.superblock);
        let ghost made = self.filesystem;
        let ghost fresh = file.file;
        let file_written = file.close(&mut self.filesystem);
        proof {
            let stored = self.filesystem.inode_view(attributes.ino)->Some_0;
            fresh.lemma_described(&made, &self.filesystem, stored);
            assert(RawByteFile::spec_load(&self.filesystem, stored).contents(&self.filesystem)
                =~= Seq::<u8>::empty());
            self.filesystem.lemma_inodes_but(&made, &old(self).filesystem, attributes.ino, true);
            self.filesystem.lemma_same_allocation(&made);
            old(self).filesystem.lemma_live_bounded();
            made.lemma_live_bounded();
            if old(self).filesystem.inode_live(parent) && spec_whole(&made, parent) {
                let record = made.inode_view(parent)->Some_0;
                assert(self.filesystem.inode_view(parent) == made.inode_view(parent));
                RawByteFile::spec_load(&made, record).lemma_wf_seen(&made, &self.filesystem);
                assert(RawByteFile::spec_load(&self.filesystem, record) == RawByteFile::spec_load(
                    &made,
                    record,
                ));
                if parent_written is Ok && file_written is Ok && spec_whole(
                    &old(self).filesystem,
                    parent,
                ) {
                    let ino = attributes.ino;
                    let before_chain = spec_chain(&old(self).filesystem, parent);
                    let after_chain = spec_chain(&self.filesystem, parent);
                    let made_chain = RawByteFile::spec_load(&made, record);
                    assert forall|other: RawByteFile| #[trigger]
                        other.wf(&old(self).filesystem) && other.apart(
                            &before_chain,
                            &old(self).filesystem,
                        ) && other.apart(
                            &spec_chain(&old(self).filesystem, ino),
                            &old(self).filesystem,
                        ) implies other.wf(&self.filesystem) && other.contents(&self.filesystem)
                        == other.contents(&old(self).filesystem) && other.apart(
                        &after_chain,
                        &self.filesystem,
                    ) && other.apart(&spec_chain(&self.filesystem, ino), &self.filesystem)
                        && other.fixed(&self.filesystem, &old(self).filesystem) by {
                        assert(other.wf(&made) && other.apart(&made_chain, &made));
                        other.lemma_apart_seen(&made_chain, &made, &self.filesystem);
                        other.lemma_fixed_twice(&self.filesystem, &made, &old(self).filesystem);
                        assert forall|block: u64|
                            !(#[trigger] other.owns(&self.filesystem, block) && spec_chain(
                                &self.filesystem,
                                ino,
                            ).owns(&self.filesystem, block)) by {
                            assert(!spec_chain(&self.filesystem, ino).owns(
                                &self.filesystem,
                                block,
                            ));
                        }
                    }
                }
            }
        }
        Ok(Done { value: attributes, write_back: both_written(parent_written, file_written) })
    }

    /// Makes a directory named `name` in directory `parent`, writes it back,
    /// and returns its attributes. The directory takes the lowest free
    /// inode, which is allocated from then on; `OutOfMemory` when none is free.
    /// What became of writing the parent and the directory back is handed
    /// on; where it succeeded the parent lists the directory behind what it
    /// listed, the directory is stored with its name and no entries, and
    /// every other file is as it was.
    pub fn mkdir(&mut self, parent: u64, name: &str, mode: u32) -> (result: Result<
        Done<FileAttributes>,
        Error,
    >)
        requires
            old(self).filesystem.wf(),
        ensures
            final(self).filesystem.wf(),
            RawByteFile::same_geometry(&final(self).filesystem, &old(self).filesystem),
            old(self).filesystem.spec_free_inode() is None ==> (result matches Err(e) && e
                is OutOfMemory),
            old(self).filesystem.spec_free_inode() is Some && old(self).filesystem.spec_free_inode() != Some(parent) && !old(self).filesystem.inode_live(
                parent,
            ) ==> (result matches Err(e) && (e is OutOfBounds || e is Io)),
            result matches Ok(done) ==> old(self).filesystem.spec_free_inode() == Some(
                done.value.ino,
            ) && done.value.kind == FileType::Directory && done.value.perm == mode % 0x1_0000
                && done.value.size == 0,
            old(self).filesystem.spec_free_inode() is Some && old(self).filesystem.spec_free_inode()
                != Some(parent) && old(self).filesystem.inode_live(parent) ==> (
            match old(self).filesystem.inode_view(parent) {
                Some(record) => RawByteFile::spec_load(&old(self).filesystem, record).wf(
                    &old(self).filesystem,
                ) ==> (result matches Err(e) ==> {
                    ||| spec_load_failure(&old(self).filesystem, record, e)
                    ||| e is OutOfBounds && vstd::utf8::encode_utf8(name@).len() > 65535
                    ||| e is NameOrInodeDuplicate && spec_listing_of(
                        &old(self).filesystem,
                        parent,
                    ).contains((old(self).filesystem.spec_free_inode()->Some_0, name@))
                }),
                None => result matches Err(e) && (e is Io || e is InsufficientBytes),
            }),
            result matches Ok(done) ==> (old(self).filesystem.inode_live(parent) && spec_whole(
                &old(self).filesystem,
                parent,
            ) ==> match done.write_back {
                Ok(_) => {
                    &&& spec_whole(&final(self).filesystem, parent)
                    &&& spec_listing_of(&final(self).filesystem, parent) == spec_listing_of(
                        &old(self).filesystem,
                        parent,
                    ).push((done.value.ino, name@))
                    &&& spec_name_of(&final(self).filesystem, parent) == spec_name_of(
                        &old(self).filesystem,
                        parent,
                    )
                    &&& spec_listing_of(&final(self).filesystem, done.value.ino).len() == 0
                    &&& spec_name_of(&final(self).filesystem, done.value.ino) == name@
                    &&& spec_two_files(&final(self).filesystem, parent, done.value.ino)
                    &&& spec_rest_kept(
                        &final(self).filesystem,
                        &old(self).filesystem,
                        parent,
                        done.value.ino,
                    )
                },
                Err(e) => {
                    ||| e is Io
                    ||| e is OutOfMemory && final(self).filesystem.spec_free_block() is None
                    ||| e is OutOfBounds && vstd::utf8::encode_utf8(
                        spec_name_of(&old(self).filesystem, parent),
                    ).len() + spec_listing_length(
                        spec_listing_of(&old(self).filesystem, parent).push(
                            (done.value.ino, name@),
                        ),
                    ) > u64::MAX
                },
            }),
            result matches Ok(done) ==> final(self).filesystem.inodes_but(
                &old(self).filesystem,
                done.value.ino,
                true,
            ),
    {
        let directory = match Directory::new(&mut self.filesystem, parent, name, mode) {
            Ok(directory) => directory,
            Err(e) => {
                return Err(e);
            },
        };
        let parent_written = directory.write_back;
        let directory = directory.value;
        let attributes = directory.inode.attrs(&self.filesystem.superblock);
        let ghost made = self.filesystem;
        let ghost held = directory.file;
        let ghost kept = directory.children@;
        let directory_written = directory.close(&mut self.filesystem);
        proof {
            self.filesystem.lemma_inodes_but(&made, &old(self).filesystem, attributes.ino, true);
            old(self).filesystem.lemma_live_bounded();
            made.lemma_live_bounded();
            made.lemma_no_free_block();
            self.filesystem.lemma_no_free_block();
            if directory_written is Ok && old(self).filesystem.inode_live(parent) && spec_whole(
                &made,
                parent,
            ) {
                let record = made.inode_view(parent)->Some_0;
                let above = RawByteFile::spec_load(&made, record);
                assert(above.apart(&held, &made)) by {
                    assert forall|block: u64| !(#[trigger] above.owns(&made, block) && held.owns(
                        &made,
                        block,
                    )) by {
                        assert(!held.owns(&made, block));
                    }
                }
                assert(self.filesystem.inode_view(parent) == made.inode_view(parent));
                assert(RawByteFile::spec_load(&self.filesystem, record) == above);
                assert(spec_listing(kept) =~= Seq::empty());
                if parent_written is Ok && spec_whole(&old(self).filesystem, parent) {
                    let ino = attributes.ino;
                    assert(above.wf(&self.filesystem) && above.fixed(&self.filesystem, &made));
                    assert forall|other: RawByteFile| #[trigger]
                        other.wf(&old(self).filesystem) && other.apart(
                            &spec_chain(&old(self).filesystem, parent),
                            &old(self).filesystem,
                        ) && other.apart(
                            &spec_chain(&old(self).filesystem, ino),
                            &old(self).filesystem,
                        ) implies other.wf(&self.filesystem) && other.contents(&self.filesystem)
                        == other.contents(&old(self).filesystem) && other.apart(
                        &spec_chain(&self.filesystem, parent),
                        &self.filesystem,
                    ) && other.apart(&spec_chain(&self.filesystem, ino), &self.filesystem)
                        && other.fixed(&self.filesystem, &old(self).filesystem) by {
                        assert(other.wf(&made) && other.apart(&above, &made));
                        assert(other.apart(&held, &made)) by {
                            assert forall|block: u64| !(#[trigger] other.owns(&made, block)
                                && held.owns(&made, block)) by {
                                assert(!held.owns(&made, block));
                            }
                        }
                        assert(other.wf(&self.filesystem));
                        other.lemma_fixed_apart(&above, &made, &self.filesystem);
                        other.lemma_fixed_twice(&self.filesystem, &made, &old(self).filesystem);
                    }
                }
            }
        }
        Ok(
            Done {
                value: attributes,
                write_back: both_written(parent_written, directory_written),
            },
        )
    }

    /// Removes the child of directory `parent` that has the name `name`,
    /// and writes the directory back. `NotFound` when the directory lists no
    /// such child. On success the inode of the child is free, and every other
    /// inode is allocated as before. What became of writing the directory
    /// back is handed on; where it succeeded the directory lists what it
    /// listed but the child, the blocks of the child are free again, and
    /// every other file is as it was.
    pub fn unlink(&mut self, parent: u64, name: &str) -> (result: Result<Done<()>, Error>)
        requires
            old(self).filesystem.wf(),
        ensures
            final(self).filesystem.wf(),
            RawByteFile::same_geometry(&final(self).filesystem, &old(self).filesystem),
            final(self).filesystem.inodes_within(&old(self).filesystem),
            result is Ok ==> final(self).filesystem.superblock.inodes_free > old(self).filesystem.superblock.inodes_free,
            !old(self).filesystem.inode_live(parent) ==> (result matches Err(e) && e
                is OutOfBounds),
            old(self).filesystem.inode_live(parent) ==> (match old(self).filesystem.inode_view(
                parent,
            ) {
                Some(record) => RawByteFile::spec_load(&old(self).filesystem, record).wf(
                    &old(self).filesystem,
                ) ==> (match spec_child_place(&old(self).filesystem, record, name@) {
                    Some(place) => result matches Err(e) ==> spec_load_failure(
                        &old(self).filesystem,
                        record,
                        e,
                    ) || spec_removal_failure(
                        &old(self).filesystem,
                        spec_entry_inode(
                            RawByteFile::spec_load(&old(self).filesystem, record).contents(
                                &old(self).filesystem,
                            ),
                            record.metadata[2] as int,
                            place,
                        ),
                        e,
                    ),
                    None => result matches Err(e) && (e is NotFound || spec_load_failure(
                        &old(self).filesystem,
                        record,
                        e,
                    )),
                }),
                None => result matches Err(e) && (e is Io || e is InsufficientBytes),
            }),
            result is Ok ==> (match spec_named_child(&old(self).filesystem, parent, name@) {
                Some(child) => spec_names_itself(&old(self).filesystem, child) ==> final(self).filesystem.inodes_but(&old(self).filesystem, child, false),
                None => true,
            }),
            result matches Ok(done) ==> (done.write_back is Ok ==> (match spec_named_child(
                &old(self).filesystem,
                parent,
                name@,
            ) {
                Some(child) => spec_two_files(&old(self).filesystem, parent, child) ==> {
                    &&& spec_whole(&final(self).filesystem, parent)
                    &&& spec_name_of(&final(self).filesystem, parent) == spec_name_of(
                        &old(self).filesystem,
                        parent,
                    )
                    &&& spec_listing_of(&final(self).filesystem, parent) == spec_without(
                        spec_listing_of(&old(self).filesystem, parent),
                        child,
                    )
                    &&& spec_rest_kept(
                        &final(self).filesystem,
                        &old(self).filesystem,
                        parent,
                        child,
                    )
                },
                None => true,
            })),
    {
        self.rmdir(parent, name)
    }

    /// Writes everything to the device, as the end of a mount does.
    pub fn destroy(&mut self) -> (result: Result<(), Error>)
        requires
            old(self).filesystem.wf(),
        ensures
            final(self).filesystem.settled_from(&old(self).filesystem),
            final(self).filesystem.flushed_in_order(&old(self).filesystem),
            match result {
                Ok(_) => final(self).filesystem.cache.clean() && final(self).filesystem.allocation_stored() && final(self).filesystem.stores_modified(&old(self).filesystem) && final(self).filesystem.stores_written(&old(self).filesystem),
                Err(e) => e is Io,
            },
    {
        self.filesystem.force_flush()
    }

    /// Moves the child `name` of directory `parent` to directory
    /// `newparent` under the name `newname`, and writes `parent` back.
    /// `NotFound`, with nothing changed, when `parent` lists no such child.
    /// No inode is allocated or released. What became of writing the
    /// directories back is handed on; where it succeeded, a rename within
    /// one directory leaves its listing with the child renamed, and a move
    /// leaves the source without the child and the destination with it
    /// behind what it listed; every other file is as it was.
    pub fn rename(&mut self, parent: u64, name: &str, newparent: u64, newname: &str) -> (result:
        Result<Done<()>, Error>)
        requires
            old(self).filesystem.wf(),
        ensures
            final(self).filesystem.wf(),
            RawByteFile::same_geometry(&final(self).filesystem, &old(self).filesystem),
            final(self).filesystem.same_inodes(&old(self).filesystem),
            !old(self).filesystem.inode_live(parent) ==> (result matches Err(e) && e
                is OutOfBounds),
            result matches Ok(done) ==> (spec_two_files(
                &old(self).filesystem,
                parent,
                newparent,
            ) && done.write_back is Ok ==> (match spec_named_child(
                &old(self).filesystem,
                parent,
                name@,
            ) {
                Some(target) => {
                    &&& spec_whole(&final(self).filesystem, parent)
                    &&& spec_name_of(&final(self).filesystem, parent) == spec_name_of(
                        &old(self).filesystem,
                        parent,
                    )
                    &&& spec_listing_of(&final(self).filesystem, parent) == spec_without(
                        spec_listing_of(&old(self).filesystem, parent),
                        target,
                    )
                    &&& spec_whole(&final(self).filesystem, newparent)
                    &&& spec_name_of(&final(self).filesystem, newparent) == spec_name_of(
                        &old(self).filesystem,
                        newparent,
                    )
                    &&& spec_listing_of(&final(self).filesystem, newparent) == spec_listing_of(
                        &old(self).filesystem,
                        newparent,
                    ).push((target, newname@))
                    &&& spec_two_files(&final(self).filesystem, parent, newparent)
                    &&& spec_rest_kept(
                        &final(self).filesystem,
                        &old(self).filesystem,
                        parent,
                        newparent,
                    )
                },
                None => false,
            })),
            result matches Ok(done) ==> (old(self).filesystem.inode_live(parent) && spec_whole(
                &old(self).filesystem,
                parent,
            ) && newparent == parent ==> (match spec_named_child(
                &old(self).filesystem,
                parent,
                name@,
            ) {
                Some(target) => match done.write_back {
                    Ok(_) => {
                        &&& spec_whole(&final(self).filesystem, parent)
                        &&& spec_name_of(&final(self).filesystem, parent) == spec_name_of(
                            &old(self).filesystem,
                            parent,
                        )
                        &&& spec_listing_renamed(
                            spec_listing_of(&old(self).filesystem, parent),
                            spec_listing_of(&final(self).filesystem, parent),
                            target,
                            newname@,
                        )
                        &&& spec_framed(&final(self).filesystem, &old(self).filesystem, parent)
                    },
                    Err(e) => {
                        ||| e is Io
                        ||| e is OutOfMemory && final(self).filesystem.spec_free_block() is None
                        ||| e is OutOfBounds && exists|listing: Seq<(u64, Seq<char>)>|
                            #[trigger] spec_listing_renamed(
                                spec_listing_of(&old(self).filesystem, parent),
                                listing,
                                target,
                                newname@,
                            ) && vstd::utf8::encode_utf8(
                                spec_name_of(&old(self).filesystem, parent),
                            ).len() + spec_listing_length(listing) > u64::MAX
                    },
                },
                None => false,
            })),
            old(self).filesystem.inode_live(parent) ==> (match old(self).filesystem.inode_view(
                parent,
            ) {
                Some(record) => RawByteFile::spec_load(&old(self).filesystem, record).wf(
                    &old(self).filesystem,
                ) ==> (match spec_child_place(&old(self).filesystem, record, name@) {
                    Some(place) => result matches Err(e) ==> spec_load_failure(
                        &old(self).filesystem,
                        record,
                        e,
                    ) || (if newparent == record.index {
                        e is OutOfBounds && vstd::utf8::encode_utf8(newname@).len() > 65535
                    } else {
                        spec_entry_failure(
                            &old(self).filesystem,
                            newparent,
                            spec_entry_inode(
                                RawByteFile::spec_load(&old(self).filesystem, record).contents(
                                    &old(self).filesystem,
                                ),
                                record.metadata[2] as int,
                                place,
                            ),
                            newname@,
                            e,
                        )
                    }),
                    None => result matches Err(e) && (e is NotFound || spec_load_failure(
                        &old(self).filesystem,
                        record,
                        e,
                    )),
                }),
                None => result matches Err(e) && (e is Io || e is InsufficientBytes),
            }),
            spec_lacks(&old(self).filesystem, parent, name@) ==> (result matches Err(e) && (e
                is NotFound || e.load_failure())) && final(self).filesystem.cached_from(
                &old(self).filesystem,
            ) && final(self).filesystem.same_records(&old(self).filesystem),
    {
        let mut directory = match Directory::load(&mut self.filesystem, parent) {
            Ok(directory) => directory,
            Err(e) => {
                return Err(e);
            },
        };
        proof {
            let record = directory.inode;
            let described = RawByteFile::spec_load(&old(self).filesystem, record);
            if described.wf(&old(self).filesystem) {
                lemma_lookup_parsed(
                    directory.children@,
                    described.contents(&old(self).filesystem),
                    record.metadata[2] as int,
                    name@,
                    0,
                );
            }
        }
        let ghost loaded = self.filesystem;
        proof {
            loaded.lemma_same_allocation(&old(self).filesystem);
            assert(loaded.inode_live(newparent) == old(self).filesystem.inode_live(newparent));
            assert(loaded.inode_view(newparent) == old(self).filesystem.inode_view(newparent));
            if let Some(found) = old(self).filesystem.inode_view(newparent) {
                let held = RawByteFile::spec_load(&old(self).filesystem, found);
                assert(held == RawByteFile::spec_load(&loaded, found));
                if held.wf(&old(self).filesystem) {
                    held.lemma_wf_stable(&old(self).filesystem, &loaded);
                }
            }
        }
        let ghost listed = directory.children@;
        let ghost held = directory;
        proof {
            if spec_two_files(&old(self).filesystem, parent, newparent) {
                let one = old(self).filesystem.inode_view(parent)->Some_0;
                let other = old(self).filesystem.inode_view(newparent)->Some_0;
                let source = RawByteFile::spec_load(&old(self).filesystem, one);
                let target_file = RawByteFile::spec_load(&old(self).filesystem, other);
                source.lemma_apart_stable(
                    &target_file,
                    &target_file,
                    &old(self).filesystem,
                    &loaded,
                );
                target_file.lemma_wf_stable(&old(self).filesystem, &loaded);
                assert(spec_listing_of(&loaded, newparent) == spec_listing_of(
                    &old(self).filesystem,
                    newparent,
                ));
                assert(spec_name_of(&loaded, newparent) == spec_name_of(
                    &old(self).filesystem,
                    newparent,
                ));
                assert forall|block: u64|
                    !(#[trigger] directory.file.owns(&loaded, block) && target_file.owns(
                        &loaded,
                        block,
                    )) by {
                    assert(directory.file.owns(&loaded, block) == source.owns(&loaded, block));
                }
            }
        }
        let moved = directory.transfer_child(
            &mut self.filesystem,
            DirectoryChildIdentifier::Name(name),
            newparent,
            newname,
        );
        proof {
            if self.filesystem.unchanged_from(&loaded) {
                self.filesystem.lemma_records_ignore_allocation(&loaded);
            }
            old(self).filesystem.lemma_live_bounded();
            if moved is Ok && newparent == parent && spec_whole(&old(self).filesystem, parent) {
                let target = spec_identified(listed, DirectoryChildIdentifier::Name(name))->Some_0;
                lemma_listing_renamed(listed, directory.children@, target, newname@);
                lemma_listing_length(directory.children@);
                assert(self.filesystem == loaded);
            }
        }
        let ghost moved_fs = self.filesystem;
        let write_back = directory.close(&mut self.filesystem);
        proof {
            if moved is Ok && newparent == parent && spec_whole(&old(self).filesystem, parent)
                && old(self).filesystem.inode_live(parent) && write_back is Ok {
                let record = old(self).filesystem.inode_view(parent)->Some_0;
                let source = RawByteFile::spec_load(&old(self).filesystem, record);
                let stored = self.filesystem.inode_view(parent)->Some_0;
                let written = RawByteFile::spec_load(&self.filesystem, stored);
                assert forall|other: RawByteFile| #[trigger]
                    other.wf(&old(self).filesystem) && other.apart(
                        &source,
                        &old(self).filesystem,
                    ) implies other.wf(&self.filesystem) && other.contents(&self.filesystem)
                    == other.contents(&old(self).filesystem) && other.apart(
                    &written,
                    &self.filesystem,
                ) && other.fixed(&self.filesystem, &old(self).filesystem) by {
                    other.lemma_apart_stable(&source, &held.file, &old(self).filesystem, &loaded);
                    assert(other.wf(&self.filesystem));
                    other.lemma_fixed_twice(&self.filesystem, &loaded, &old(self).filesystem);
                }
                assert forall|other: u64| other != parent implies
                    #[trigger] self.filesystem.inode_view(other) == old(self).filesystem.inode_view(other) by {
                    assert(loaded.inode_view(other) == old(self).filesystem.inode_view(other));
                }
            }
            if spec_two_files(&old(self).filesystem, parent, newparent) && write_back is Ok {
                if moved is Ok {
                    if moved->Ok_0.write_back is Ok {
                        let stored = moved_fs.inode_view(newparent)->Some_0;
                        let written = RawByteFile::spec_load(&moved_fs, stored);
                        assert forall|block: u64|
                            !(#[trigger] written.owns(&moved_fs, block) && directory.file.owns(
                                &moved_fs,
                                block,
                            )) by {
                            if directory.file.owns(&moved_fs, block) {
                                assert(!(directory.file.owns(&moved_fs, block) && written.owns(
                                    &moved_fs,
                                    block,
                                )));
                            }
                        }
                        assert(written.apart(&directory.file, &moved_fs));
                        assert(self.filesystem.inode_view(newparent) == moved_fs.inode_view(
                            newparent,
                        ));
                        assert(RawByteFile::spec_load(&self.filesystem, stored) == written);
                        let one = old(self).filesystem.inode_view(parent)->Some_0;
                        let two = old(self).filesystem.inode_view(newparent)->Some_0;
                        let source = RawByteFile::spec_load(&old(self).filesystem, one);
                        let target_file = RawByteFile::spec_load(&old(self).filesystem, two);
                        let above = spec_chain(&self.filesystem, parent);
                        assert(written.wf(&self.filesystem) && written.fixed(
                            &self.filesystem,
                            &moved_fs,
                        ) && written.apart(&above, &self.filesystem));
                        assert(held.file.wf(&moved_fs) && held.file.fixed(&moved_fs, &loaded));
                        assert(above.apart(&written, &self.filesystem)) by {
                            assert forall|block: u64|
                                !(#[trigger] above.owns(&self.filesystem, block) && written.owns(
                                    &self.filesystem,
                                    block,
                                )) by {
                                assert(!(written.owns(&self.filesystem, block) && above.owns(
                                    &self.filesystem,
                                    block,
                                )));
                            }
                        }
                        assert forall|other: RawByteFile| #[trigger]
                            other.wf(&old(self).filesystem) && other.apart(
                                &spec_chain(&old(self).filesystem, parent),
                                &old(self).filesystem,
                            ) && other.apart(
                                &spec_chain(&old(self).filesystem, newparent),
                                &old(self).filesystem,
                            ) implies other.wf(&self.filesystem) && other.contents(
                            &self.filesystem,
                        ) == other.contents(&old(self).filesystem) && other.apart(
                            &spec_chain(&self.filesystem, parent),
                            &self.filesystem,
                        ) && other.apart(&spec_chain(&self.filesystem, newparent), &self.filesystem)
                            && other.fixed(&self.filesystem, &old(self).filesystem) by {
                            other.lemma_apart_stable(
                                &source,
                                &held.file,
                                &old(self).filesystem,
                                &loaded,
                            );
                            other.lemma_apart_stable(
                                &target_file,
                                &target_file,
                                &old(self).filesystem,
                                &loaded,
                            );
                            assert(other.wf(&moved_fs) && other.fixed(&moved_fs, &loaded));
                            other.lemma_fixed_apart(&held.file, &loaded, &moved_fs);
                            assert(other.wf(&self.filesystem) && other.fixed(
                                &self.filesystem,
                                &moved_fs,
                            ));
                            other.lemma_fixed_apart(&written, &moved_fs, &self.filesystem);
                            other.lemma_fixed_twice(&moved_fs, &loaded, &old(self).filesystem);
                            other.lemma_fixed_twice(
                                &self.filesystem,
                                &moved_fs,
                                &old(self).filesystem,
                            );
                        }
                        assert forall|other: u64| other != parent && other != newparent implies
                            #[trigger] self.filesystem.inode_view(other) == old(self).filesystem.inode_view(other) by {
                            assert(moved_fs.inode_view(other) == loaded.inode_view(other));
                            assert(loaded.inode_view(other) == old(self).filesystem.inode_view(
                                other,
                            ));
                        }
                    }
                }
            }
        }
        match moved {
            Ok(done) => Ok(Done { value: (), write_back: both_written(done.write_back, write_back) }),
            Err(e) => Err(e),
        }
    }

    /// Writes to the device when the write-back window has passed.
    pub fn flush(&mut self) -> (result: Result<(), Error>)
        requires
            old(self).filesystem.wf(),
        ensures
            final(self).filesystem.settled_from(&old(self).filesystem),
            exists|now: u64| #[trigger]
                final(self).filesystem.flushed_at(&old(self).filesystem, now, result),
            result matches Err(e) ==> e is Io,
            old(self).filesystem.last_flush is None && result is Ok ==> final(self).filesystem.cache.clean() && final(self).filesystem.last_flush is Some && final(self).filesystem.allocation_stored() && final(self).filesystem.stores_modified(
                &old(self).filesystem,
            ),
    {
        self.filesystem.flush()
    }

    /// Writes everything to the device.
    pub fn fsync(&mut self) -> (result: Result<(), Error>)
        requires
            old(self).filesystem.wf(),
        ensures
            final(self).filesystem.settled_from(&old(self).filesystem),
            final(self).filesystem.flushed_in_order(&old(self).filesystem),
            match result {
                Ok(_) => final(self).filesystem.cache.clean() && final(self).filesystem.allocation_stored() && final(self).filesystem.stores_modified(&old(self).filesystem) && final(self).filesystem.stores_written(&old(self).filesystem),
                Err(e) => e is Io,
            },
    {
        self.filesystem.force_flush()
    }

    /// The counts of the filesystem: blocks, free blocks, twice, inodes in
    /// use, free inodes, the payload of a block as block size and fragment
    /// size, and the longest name.
    pub fn statfs(&self) -> (statistics: Statistics)
        requires
            self.filesystem.wf(),
        ensures
            statistics == (Statistics {
                blocks: self.filesystem.superblock.block_count,
                blocks_free: self.filesystem.superblock.blocks_free,
                blocks_available: self.filesystem.superblock.blocks_free,
                files: (self.filesystem.superblock.inode_count
                    - self.filesystem.superblock.inodes_free) as u64,
                files_free: self.filesystem.superblock.inodes_free,
                block_size: (self.filesystem.superblock.block_size - 8) as u32,
                name_length: 65535,
                fragment_size: (self.filesystem.superblock.block_size - 8) as u32,
            }),
            self.filesystem.superblock.inodes_free <= self.filesystem.superblock.inode_count,
    {
        proof {
            self.filesystem.lemma_consistent_counts();
        }
        let superblock = &self.filesystem.superblock;
        let padded_block_size = superblock.block_size - 8;
        Statistics {
            blocks: superblock.block_count,
            blocks_free: superblock.blocks_free,
            blocks_available: superblock.blocks_free,
            files: superblock.inode_count - superblock.inodes_free,
            files_free: superblock.inodes_free,
            block_size: padded_block_size,
            name_length: 65535,
            fragment_size: padded_block_size,
        }
    }
}

/// Whether two kinds are the same.
pub fn kind_is(kind: FileType, wanted: FileType) -> (same: bool)
    ensures
        same == (kind == wanted),
{
    kind == wanted
}

} // verus!
