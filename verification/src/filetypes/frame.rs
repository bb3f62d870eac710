//! What a change to one file leaves of the others: a file takes its new
//! blocks from the free ones and gives up none but its own, so files that
//! shared no block with it keep their chains and their bytes.

use vstd::prelude::*;
use crate::filesystem::Filesystem;
use crate::filesystem::device::BlockDevice;
use crate::filetypes::RawByteFile;
use crate::filetypes::directory::spec_whole;
use crate::structs::{FileType, Inode, NULL_BLOCK};

verus! {

impl RawByteFile {
    /// The indexes of the blocks of the chain.
    pub open spec fn owned<D: BlockDevice>(&self, fs: &Filesystem<D>) -> Set<int> {
        Set::new(|index: int| 0 <= index <= u64::MAX && self.owns(fs, index as u64))
    }

    /// Whether the chain passes the same blocks in both filesystems.
    pub open spec fn fixed<D: BlockDevice>(&self, after: &Filesystem<D>, before: &Filesystem<D>) -> bool {
        forall|place: nat|
            place <= self.block_count ==> #[trigger] self.block_at(after, place) == self.block_at(
                before,
                place,
            )
    }

    /// A chain that passes the same blocks over two steps passes them over
    /// both.
    pub proof fn lemma_fixed_twice<D: BlockDevice>(
        &self,
        after: &Filesystem<D>,
        between: &Filesystem<D>,
        before: &Filesystem<D>,
    )
        requires
            self.fixed(after, between),
            self.fixed(between, before),
        ensures
            self.fixed(after, before),
    {
        assert forall|place: nat| place <= self.block_count implies #[trigger] self.block_at(
            after,
            place,
        ) == self.block_at(before, place) by {
            assert(self.block_at(between, place) == self.block_at(before, place));
        }
    }

    /// Files whose chains pass the same blocks as before share no block
    /// when they shared none before.
    pub proof fn lemma_fixed_apart<D: BlockDevice>(
        &self,
        other: &Self,
        before: &Filesystem<D>,
        after: &Filesystem<D>,
    )
        requires
            self.apart(other, before),
            self.fixed(after, before),
            other.fixed(after, before),
        ensures
            self.apart(other, after),
    {
        assert forall|block: u64| !(#[trigger] self.owns(after, block) && other.owns(
            after,
            block,
        )) by {
            if self.owns(after, block) && other.owns(after, block) {
                let mine = choose|place: nat|
                    place < self.block_count && #[trigger] self.block_at(after, place) == block;
                let theirs = choose|place: nat|
                    place < other.block_count && #[trigger] other.block_at(after, place) == block;
                assert(self.block_at(before, mine) == block);
                assert(other.block_at(before, theirs) == block);
                assert(self.owns(before, block));
                assert(other.owns(before, block));
            }
        }
    }

    /// Whether the two files share no block.
    pub open spec fn apart<D: BlockDevice>(&self, other: &Self, fs: &Filesystem<D>) -> bool {
        forall|block: u64| !(#[trigger] self.owns(fs, block) && other.owns(fs, block))
    }

    /// An intact chain has as many blocks as its count tells, all of them
    /// allocated.
    pub proof fn lemma_owned_count<D: BlockDevice>(&self, fs: &Filesystem<D>)
        requires
            fs.wf(),
            self.linked(fs),
        ensures
            self.owned(fs).finite(),
            self.owned(fs).len() == self.block_count,
            self.owned(fs).subset_of(fs.live_blocks()),
    {
        reveal(RawByteFile::linked);
        fs.lemma_live_bounded();
        let chain = Seq::new(self.block_count as nat, |place: int| self.block_at(fs, place as nat) as int);
        assert forall|left: int, right: int|
            0 <= left < chain.len() && 0 <= right < chain.len() && left != right implies chain[left]
            != chain[right] by {
            if left < right {
                assert(self.block_at(fs, left as nat) != self.block_at(fs, right as nat));
            } else {
                assert(self.block_at(fs, right as nat) != self.block_at(fs, left as nat));
            }
        }
        chain.unique_seq_to_set();
        assert forall|index: int| chain.to_set().contains(index) <==> self.owned(fs).contains(
            index,
        ) by {
            if chain.to_set().contains(index) {
                let place = choose|place: int| 0 <= place < chain.len() && chain[place] == index;
                assert(self.block_at(fs, place as nat) == index as u64);
            }
            if self.owned(fs).contains(index) {
                let place = choose|place: nat|
                    place < self.block_count && #[trigger] self.block_at(fs, place) == index as u64;
                assert(chain[place as int] == index);
            }
        }
        assert(chain.to_set() =~= self.owned(fs));
        assert forall|index: int| self.owned(fs).contains(index) implies fs.live_blocks().contains(
            index,
        ) by {
            let place = choose|place: nat|
                place < self.block_count && #[trigger] self.block_at(fs, place) == index as u64;
            assert(fs.block_live(self.block_at(fs, place)));
        }
    }

    /// A file takes its new blocks from the free ones: a block of the
    /// grown file that was allocated before was a block of the file.
    pub proof fn lemma_fresh<D: BlockDevice>(
        &self,
        fs: &Filesystem<D>,
        origin: &Self,
        start: &Filesystem<D>,
    )
        requires
            fs.wf(),
            start.wf(),
            origin.linked(start),
            self.extends(fs, origin, start),
            fs.superblock.blocks_free + self.block_count == start.superblock.blocks_free
                + origin.block_count,
        ensures
            forall|block: u64|
                #[trigger] self.owns(fs, block) && start.block_live(block) ==> origin.owns(
                    start,
                    block,
                ),
    {
        reveal(RawByteFile::extends);
        self.lemma_owned_count(fs);
        origin.lemma_owned_count(start);
        fs.lemma_live_blocks();
        start.lemma_live_blocks();
        fs.lemma_live_bounded();
        start.lemma_live_bounded();
        let grown = self.owned(fs);
        let first = origin.owned(start);
        let now = fs.live_blocks();
        let then = start.live_blocks();
        // The blocks of the file before are among those of the file after.
        assert forall|index: int| first.contains(index) implies grown.contains(index) by {
            let place = choose|place: nat|
                place < origin.block_count && #[trigger] origin.block_at(start, place)
                    == index as u64;
            assert(self.block_at(fs, place) == origin.block_at(start, place));
        }
        // Outside the file the same blocks are allocated.
        assert(now.difference(grown) =~= then.difference(grown)) by {
            assert forall|index: int|
                now.difference(grown).contains(index) <==> then.difference(grown).contains(
                    index,
                ) by {
                if 0 <= index < fs.superblock.block_count && !grown.contains(index) {
                    assert(!self.owns(fs, index as u64));
                    assert(fs.block_live(index as u64) == start.block_live(index as u64));
                }
            }
        }
        let met = then.intersect(grown);
        vstd::set_lib::lemma_len_intersect(then, grown);
        vstd::set_lib::lemma_set_disjoint_lens(now.difference(grown), grown);
        assert(now.difference(grown) + grown =~= now);
        vstd::set_lib::lemma_len_difference(then, grown);
        vstd::set_lib::lemma_set_disjoint_lens(then.difference(grown), met);
        assert(then.difference(grown) + met =~= then);
        assert(met.len() == first.len());
        assert(first.subset_of(met));
        vstd::set_lib::lemma_subset_equality(first, met);
        assert forall|block: u64|
            #[trigger] self.owns(fs, block) && start.block_live(block) implies origin.owns(
            start,
            block,
        ) by {
            assert(met.contains(block as int));
            assert(first.contains(block as int));
        }
    }

    /// Files that share no block share none in a filesystem that sees the
    /// same bytes in every block and has the same blocks allocated.
    pub proof fn lemma_apart_seen<D: BlockDevice>(
        &self,
        other: &Self,
        before: &Filesystem<D>,
        after: &Filesystem<D>,
    )
        requires
            self.wf(before),
            other.wf(before),
            self.apart(other, before),
            after.wf(),
            Self::same_geometry(after, before),
            forall|block: u64| #[trigger] after.block_view(block) == before.block_view(block),
            forall|block: u64| #[trigger] after.block_live(block) == before.block_live(block),
        ensures
            self.wf(after),
            other.wf(after),
            self.contents(after) == self.contents(before),
            other.contents(after) == other.contents(before),
            self.apart(other, after),
            self.fixed(after, before),
            other.fixed(after, before),
    {
        self.lemma_wf_seen(before, after);
        other.lemma_wf_seen(before, after);
        reveal(RawByteFile::linked);
        assert forall|place: nat| place < self.block_count implies after.block_view(
            #[trigger] self.block_at(before, place),
        ) == before.block_view(self.block_at(before, place)) && after.block_live(
            self.block_at(before, place),
        ) by {
            assert(before.block_live(self.block_at(before, place)));
        }
        assert forall|place: nat| place < other.block_count implies after.block_view(
            #[trigger] other.block_at(before, place),
        ) == before.block_view(other.block_at(before, place)) && after.block_live(
            other.block_at(before, place),
        ) by {
            assert(before.block_live(other.block_at(before, place)));
        }
        self.lemma_linked_stable(before, after);
        other.lemma_linked_stable(before, after);
        assert forall|block: u64| !(#[trigger] self.owns(after, block) && other.owns(
            after,
            block,
        )) by {
            if self.owns(after, block) && other.owns(after, block) {
                let mine = choose|place: nat|
                    place < self.block_count && #[trigger] self.block_at(after, place) == block;
                let theirs = choose|place: nat|
                    place < other.block_count && #[trigger] other.block_at(after, place) == block;
                assert(self.block_at(before, mine) == block);
                assert(other.block_at(before, theirs) == block);
                assert(self.owns(before, block));
                assert(other.owns(before, block));
            }
        }
    }

    /// Files that share no block share none in a filesystem that sees the
    /// same records and has the same allocation; a file with the chain of
    /// one of them may stand for it.
    pub proof fn lemma_apart_stable<D: BlockDevice>(
        &self,
        other: &Self,
        same: &Self,
        before: &Filesystem<D>,
        after: &Filesystem<D>,
    )
        requires
            self.wf(before),
            other.linked(before),
            before.wf(),
            self.apart(other, before),
            after.wf(),
            after.same_allocation(before),
            after.same_records(before),
            same.first_block == other.first_block,
            same.block_count == other.block_count,
        ensures
            self.wf(after),
            self.contents(after) == self.contents(before),
            self.apart(same, after),
            self.fixed(after, before),
    {
        self.lemma_wf_stable(before, after);
        reveal(RawByteFile::linked);
        after.lemma_same_allocation(before);
        assert forall|place: nat| place < other.block_count implies after.block_view(
            #[trigger] other.block_at(before, place),
        ) == before.block_view(other.block_at(before, place)) && after.block_live(
            other.block_at(before, place),
        ) by {
            assert(before.block_live(other.block_at(before, place)));
        }
        other.lemma_linked_stable(before, after);
        assert forall|block: u64| !(#[trigger] self.owns(after, block) && same.owns(
            after,
            block,
        )) by {
            if self.owns(after, block) && same.owns(after, block) {
                let mine = choose|place: nat|
                    place < self.block_count && #[trigger] self.block_at(after, place) == block;
                let theirs = choose|place: nat|
                    place < same.block_count && #[trigger] same.block_at(after, place) == block;
                assert(self.block_at(before, mine) == block);
                assert(other.block_at(after, theirs) == block);
                assert(other.block_at(before, theirs) == block);
                assert(self.owns(before, block));
                assert(other.owns(before, block));
            }
        }
    }

    /// A file that shared no block with a file that was removed keeps its
    /// chain and its bytes.
    pub proof fn lemma_apart_released<D: BlockDevice>(
        &self,
        after: &Filesystem<D>,
        before: &Filesystem<D>,
        record: crate::structs::Inode,
    )
        requires
            self.wf(before),
            after.wf(),
            Self::same_geometry(after, before),
            self.apart(&Self::spec_load(before, record), before),
            Self::released(after, before, record),
        ensures
            self.wf(after),
            self.contents(after) == self.contents(before),
            self.fixed(after, before),
    {
        reveal(RawByteFile::linked);
        before.lemma_live_bounded();
        assert forall|place: nat| place < self.block_count implies after.block_view(
            #[trigger] self.block_at(before, place),
        ) == before.block_view(self.block_at(before, place)) && after.block_live(
            self.block_at(before, place),
        ) by {
            let block = self.block_at(before, place);
            assert(before.block_live(block));
            assert(self.owns(before, block));
            assert(!Self::spec_load(before, record).owns(before, block));
        }
        self.lemma_linked_stable(before, after);
        assert(self.contents(after) =~= self.contents(before));
    }

    /// A file that shared no block with a file that was cut keeps its chain
    /// and its bytes, and shares no block with what is left of the file.
    pub proof fn lemma_apart_cut<D: BlockDevice>(
        &self,
        cut: &Self,
        fs: &Filesystem<D>,
        origin: &Self,
        start: &Filesystem<D>,
    )
        requires
            fs.wf(),
            start.wf(),
            cut.cut_from(fs, origin, start),
            self.wf(start),
            self.apart(origin, start),
        ensures
            self.wf(fs),
            self.contents(fs) == self.contents(start),
            self.apart(cut, fs),
            self.fixed(fs, start),
    {
        reveal(RawByteFile::cut_from);
        reveal(RawByteFile::linked);
        start.lemma_live_bounded();
        assert forall|place: nat| place < self.block_count implies fs.block_view(
            #[trigger] self.block_at(start, place),
        ) == start.block_view(self.block_at(start, place)) && fs.block_live(
            self.block_at(start, place),
        ) by {
            let block = self.block_at(start, place);
            assert(start.block_live(block));
            assert(self.owns(start, block));
            assert(!origin.owns(start, block));
            if cut.block_count > 0 {
                let last = (cut.block_count - 1) as nat;
                assert(cut.block_at(fs, last) == origin.block_at(start, last));
                assert(origin.owns(start, cut.last_block));
            }
            if origin.owns_from(start, cut.block_count, block) {
                let behind = choose|behind: nat|
                    cut.block_count <= behind < origin.block_count && #[trigger] origin.block_at(
                        start,
                        behind,
                    ) == block;
                assert(origin.owns(start, block));
            }
        }
        self.lemma_linked_stable(start, fs);
        assert(self.contents(fs) =~= self.contents(start));
        assert forall|block: u64| !(#[trigger] self.owns(fs, block) && cut.owns(fs, block)) by {
            if self.owns(fs, block) && cut.owns(fs, block) {
                let mine = choose|place: nat|
                    place < self.block_count && #[trigger] self.block_at(fs, place) == block;
                let theirs = choose|place: nat|
                    place < cut.block_count && #[trigger] cut.block_at(fs, place) == block;
                assert(self.block_at(start, mine) == block);
                assert(origin.block_at(start, theirs) == block);
                assert(self.owns(start, block));
                assert(origin.owns(start, block));
            }
        }
    }

    /// A file that shared no block with a file that grew keeps its chain
    /// and its bytes, and shares no block with the grown file.
    pub proof fn lemma_apart_kept<D: BlockDevice>(
        &self,
        grown: &Self,
        fs: &Filesystem<D>,
        origin: &Self,
        start: &Filesystem<D>,
    )
        requires
            fs.wf(),
            start.wf(),
            origin.linked(start),
            grown.extends(fs, origin, start),
            fs.superblock.blocks_free + grown.block_count == start.superblock.blocks_free
                + origin.block_count,
            self.wf(start),
            self.apart(origin, start),
        ensures
            self.wf(fs),
            self.contents(fs) == self.contents(start),
            self.apart(grown, fs),
            self.fixed(fs, start),
    {
        grown.lemma_fresh(fs, origin, start);
        reveal(RawByteFile::extends);
        reveal(RawByteFile::linked);
        assert forall|place: nat| place < self.block_count implies fs.block_view(
            #[trigger] self.block_at(start, place),
        ) == start.block_view(self.block_at(start, place)) && fs.block_live(
            self.block_at(start, place),
        ) by {
            let block = self.block_at(start, place);
            assert(start.block_live(block));
            assert(self.owns(start, block));
            assert(!origin.owns(start, block));
            assert(!grown.owns(fs, block));
        }
        self.lemma_linked_stable(start, fs);
        assert(self.contents(fs) =~= self.contents(start));
        assert forall|block: u64| !(#[trigger] self.owns(fs, block) && grown.owns(fs, block)) by {
            if self.owns(fs, block) && grown.owns(fs, block) {
                let place = choose|place: nat|
                    place < self.block_count && #[trigger] self.block_at(fs, place) == block;
                assert(self.block_at(start, place) == block);
                assert(start.block_live(block));
                assert(self.owns(start, block));
            }
        }
    }
}

/// Whether the inodes `left` and `right` of `fs` are two allocated inodes
/// whose records name them and describe consistent chains that share no
/// block.
pub open spec fn spec_two_files<D: BlockDevice>(fs: &Filesystem<D>, left: u64, right: u64) -> bool {
    &&& left != right
    &&& fs.inode_live(left) && spec_whole(fs, left)
    &&& fs.inode_live(right) && spec_whole(fs, right)
    &&& match (fs.inode_view(left), fs.inode_view(right)) {
        (Some(one), Some(other)) => RawByteFile::spec_load(fs, one).apart(
            &RawByteFile::spec_load(fs, other),
            fs,
        ),
        _ => false,
    }
}

/// The chain of the file of inode `ino`: of an inode that is not
/// allocated or has no record, the empty chain.
pub open spec fn spec_chain<D: BlockDevice>(fs: &Filesystem<D>, ino: u64) -> RawByteFile {
    match fs.inode_view(ino) {
        Some(record) => if fs.inode_live(ino) {
            RawByteFile::spec_load(fs, record)
        } else {
            RawByteFile::spec_load(fs, Inode { first_block: NULL_BLOCK, block_count: 0, ..record })
        },
        None => RawByteFile::spec_load(
            fs,
            Inode {
                first_block: NULL_BLOCK,
                last_block: NULL_BLOCK,
                block_count: 0,
                size: 0,
                index: 0,
                mode: 0,
                kind: FileType::RegularFile,
                uid: 0,
                gid: 0,
                atime: 0,
                ctime: 0,
                mtime: 0,
                dtime: 0,
                metadata: [0, 0, 0, 0, 0],
            },
        ),
    }
}

/// Whether a change to the files of the inodes `one` and `two` has left
/// the rest as it was: every consistent file that shared no block with
/// either before keeps its bytes and its blocks and shares no block with
/// either after, every record but theirs is as before, and the blocks
/// that the two files took or gave up are those that are no longer, or
/// are again, free.
pub open spec fn spec_rest_kept<D: BlockDevice>(
    after: &Filesystem<D>,
    before: &Filesystem<D>,
    one: u64,
    two: u64,
) -> bool {
    &&& forall|other: RawByteFile| #[trigger]
        other.wf(before) && other.apart(&spec_chain(before, one), before) && other.apart(
            &spec_chain(before, two),
            before,
        ) ==> other.wf(after) && other.contents(after) == other.contents(before) && other.apart(
            &spec_chain(after, one),
            after,
        ) && other.apart(&spec_chain(after, two), after) && other.fixed(after, before)
    &&& forall|other: u64|
        other != one && other != two ==> #[trigger] after.inode_view(other) == before.inode_view(
            other,
        )
    &&& after.superblock.blocks_free + spec_chain(after, one).block_count + spec_chain(
        after,
        two,
    ).block_count == before.superblock.blocks_free + spec_chain(before, one).block_count
        + spec_chain(before, two).block_count
}

} // verus!
