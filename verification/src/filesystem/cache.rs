//! Write-back cache of inode and block records.

use vstd::prelude::*;
use std::collections::BTreeMap;
use vstd::std_specs::iter::IteratorSpec;
use crate::error::Error;
use crate::filesystem::device::BlockDevice;
use crate::structs::{Block, Inode, Superblock};

verus! {

/// Number of spare lines that pruning leaves in the cache.
pub const LRU_MAX_ENTRIES: usize = 131072;

/// A record that the cache can hold: it can be compared and copied.
pub trait Cacheable: Sized {
    /// Whether two records hold the same values.
    spec fn same(&self, other: &Self) -> bool;

    /// Computes `same`.
    fn equals(&self, other: &Self) -> (equal: bool)
        ensures
            equal == self.same(other),
    ;

    /// Copies the record.
    fn copy(&self) -> (copy: Self)
        ensures
            copy.same(self),
    ;
}

impl Cacheable for Inode {
    open spec fn same(&self, other: &Self) -> bool {
        *self == *other
    }

    fn equals(&self, other: &Self) -> (equal: bool) {
        self.same_as(other)
    }

    fn copy(&self) -> (copy: Self) {
        *self
    }
}

impl Cacheable for Block {
    open spec fn same(&self, other: &Self) -> bool {
        self.index == other.index && self.data@ == other.data@
    }

    fn equals(&self, other: &Self) -> (equal: bool) {
        self.same_as(other)
    }

    fn copy(&self) -> (copy: Self) {
        self.duplicate()
    }
}

/// A cached record with its write-back state.
#[derive(Debug)]
pub struct CacheLine<T> {
    /// The cached copy.
    pub value: T,
    /// Whether the copy differs from what was first cached.
    pub modified: bool,
    /// Whether the device is known to store the copy: it was read from the
    /// device or written to it, and not changed since.
    pub stored: bool,
    /// Time of the last access, in milliseconds of the filesystem's clock.
    pub atime: u64,
}

/// A cache line named by its kind and index, with its last access.
#[derive(Debug)]
pub enum LruLine {
    Inode(u64, u64),
    Block(u64, u64),
}

impl LruLine {
    /// Milliseconds between the line's last access and `now`; zero when the
    /// access is not before `now`.
    pub fn duration(&self, now: u64) -> (age: u64)
        ensures
            age == (match *self {
                LruLine::Inode(last, _) => if now >= last {
                    now - last
                } else {
                    0
                },
                LruLine::Block(last, _) => if now >= last {
                    now - last
                } else {
                    0
                },
            }),
    {
        let last = match self {
            LruLine::Inode(last, _) => *last,
            LruLine::Block(last, _) => *last,
        };
        if now >= last {
            now - last
        } else {
            0
        }
    }
}

impl<T: Cacheable> CacheLine<T> {
    /// A line holding a copy of `value`, unmodified and accessed at `now`.
    /// Nothing is known of what the device stores.
    pub fn new(value: &T, now: u64) -> (line: Self)
        ensures
            line.value.same(value),
            !line.modified,
            !line.stored,
            line.atime == now,
    {
        Self { value: value.copy(), modified: false, stored: false, atime: now }
    }

    /// A line holding a copy of `value` that was read from the device,
    /// unmodified and accessed at `now`.
    pub fn read(value: &T, now: u64) -> (line: Self)
        ensures
            line.value.same(value),
            !line.modified,
            line.stored,
            line.atime == now,
    {
        Self { value: value.copy(), modified: false, stored: true, atime: now }
    }

    /// Whether pruning may evict the line: it is unmodified and the device
    /// stores it.
    pub open spec fn spare(&self) -> bool {
        !self.modified && self.stored
    }

    /// The cached record; the access is recorded at `now`.
    pub fn get(&mut self, now: u64) -> (value: &T)
        ensures
            *value == old(self).value,
            final(self).value == old(self).value,
            final(self).modified == old(self).modified,
            final(self).stored == old(self).stored,
            final(self).atime == now,
    {
        self.atime = now;
        &self.value
    }

    /// Replaces the cached record when `value` differs from it; the line is
    /// then modified, no longer known to be stored, and accessed at `now`.
    /// An equal `value` changes nothing.
    pub fn update(&mut self, value: &T, now: u64)
        ensures
            final(self).value.same(value),
            old(self).value.same(value) ==> *final(self) == *old(self),
            !old(self).value.same(value) ==> final(self).modified && !final(self).stored && final(self).atime == now,
    {
        if !self.value.equals(value) {
            self.atime = now;
            self.modified = true;
            self.stored = false;
            self.value = value.copy()
        }
    }
}

impl CacheLine<Inode> {
    /// Names the line for pruning.
    pub fn lru_line(&self) -> (line: LruLine)
        ensures
            line == LruLine::Inode(self.atime, self.value.index),
    {
        LruLine::Inode(self.atime, self.value.index)
    }
}

impl CacheLine<Block> {
    /// Names the line for pruning.
    pub fn lru_line(&self) -> (line: LruLine)
        ensures
            line == LruLine::Block(self.atime, self.value.index),
    {
        LruLine::Block(self.atime, self.value.index)
    }
}

/// The keys of `map`, each once.
pub fn keys_of<K: Copy, V>(map: &BTreeMap<K, V>) -> (keys: Vec<K>)
    requires
        vstd::std_specs::btree::key_obeys_cmp_spec::<K>(),
    ensures
        keys@.no_duplicates(),
        keys@.to_set() == map@.dom(),
        keys@.len() == map@.dom().len(),
{
    let mut keys: Vec<K> = Vec::new();
    let ghost all = map.keys().remaining().unref();
    for key in iter: map.keys()
        invariant
            iter.seq().unref() == all,
            keys@ == all.take(iter.index()),
    {
        keys.push(*key);
        assert(all.take(iter.index() + 1) =~= all.take(iter.index()).push(*key));
    }
    assert(keys@ =~= all);
    keys
}

/// Inode and block records held in memory, keyed by index.
#[derive(Debug)]
pub struct Cache {
    pub inodes: BTreeMap<u64, CacheLine<Inode>>,
    pub blocks: BTreeMap<u64, CacheLine<Block>>,
}

impl LruLine {
    /// The key under which pruning orders this line: its last access, then
    /// inodes before blocks, then its index.
    pub open spec fn spec_key(&self) -> (u64, u64, u64) {
        match *self {
            LruLine::Inode(atime, index) => (atime, 0, index),
            LruLine::Block(atime, index) => (atime, 1, index),
        }
    }

    /// Computes `spec_key`.
    pub fn sort_key(&self) -> (key: (u64, u64, u64))
        ensures
            key == self.spec_key(),
    {
        match self {
            LruLine::Inode(atime, index) => (*atime, 0, *index),
            LruLine::Block(atime, index) => (*atime, 1, *index),
        }
    }
}

impl Cache {
    /// Every line is filed under the index of its record.
    pub open spec fn wf(&self) -> bool {
        &&& forall|key: u64| #[trigger]
            self.inodes@.contains_key(key) ==> self.inodes@[key].value.index == key
        &&& forall|key: u64| #[trigger]
            self.blocks@.contains_key(key) ==> self.blocks@[key].value.index == key
    }

    /// Whether both caches hold the same lines.
    pub open spec fn same_lines(&self, other: &Self) -> bool {
        self.inodes@ == other.inodes@ && self.blocks@ == other.blocks@
    }

    /// Number of lines.
    pub open spec fn len(&self) -> nat {
        self.inodes@.dom().len() + self.blocks@.dom().len()
    }

    /// No line is modified.
    pub open spec fn clean(&self) -> bool {
        &&& forall|key: u64| #[trigger]
            self.inodes@.contains_key(key) ==> !self.inodes@[key].modified
        &&& forall|key: u64| #[trigger]
            self.blocks@.contains_key(key) ==> !self.blocks@[key].modified
    }

    /// An empty cache.
    pub fn new() -> (cache: Self)
        ensures
            cache.wf(),
            cache.inodes@ == Map::<u64, CacheLine<Inode>>::empty(),
            cache.blocks@ == Map::<u64, CacheLine<Block>>::empty(),
    {
        Self { inodes: BTreeMap::new(), blocks: BTreeMap::new() }
    }

    /// The cached inode `index`, if there is one; its access is recorded at `now`.
    pub fn get_inode(&mut self, index: u64, now: u64) -> (result: Option<Inode>)
        ensures
            final(self).blocks@ == old(self).blocks@,
            match result {
                Some(inode) => {
                    &&& old(self).inodes@.contains_key(index)
                    &&& inode == old(self).inodes@[index].value
                    &&& final(self).inodes@ == old(self).inodes@.insert(
                        index,
                        CacheLine {
                            value: inode,
                            modified: old(self).inodes@[index].modified,
                            stored: old(self).inodes@[index].stored,
                            atime: now,
                        },
                    )
                },
                None => !old(self).inodes@.contains_key(index) && final(self).inodes@ == old(self).inodes@,
            },
    {
        match self.inodes.remove(&index) {
            Some(line) => {
                let mut line = line;
                let inode = *line.get(now);
                self.inodes.insert(index, line);
                assert(self.inodes@ =~= old(self).inodes@.insert(
                    index,
                    CacheLine {
                        value: inode,
                        modified: old(self).inodes@[index].modified,
                        stored: old(self).inodes@[index].stored,
                        atime: now,
                    },
                ));
                Some(inode)
            },
            None => {
                assert(self.inodes@ =~= old(self).inodes@);
                None
            },
        }
    }

    /// A copy of the cached block `index`, if there is one; its access is
    /// recorded at `now`.
    pub fn get_block(&mut self, index: u64, now: u64) -> (result: Option<Block>)
        ensures
            final(self).inodes@ == old(self).inodes@,
            match result {
                Some(block) => {
                    &&& old(self).blocks@.contains_key(index)
                    &&& block.index == old(self).blocks@[index].value.index
                    &&& block.data@ == old(self).blocks@[index].value.data@
                    &&& final(self).blocks@ == old(self).blocks@.insert(
                        index,
                        CacheLine {
                            value: old(self).blocks@[index].value,
                            modified: old(self).blocks@[index].modified,
                            stored: old(self).blocks@[index].stored,
                            atime: now,
                        },
                    )
                },
                None => !old(self).blocks@.contains_key(index) && final(self).blocks@ == old(self).blocks@,
            },
    {
        match self.blocks.remove(&index) {
            Some(line) => {
                let mut line = line;
                let block = line.get(now).duplicate();
                self.blocks.insert(index, line);
                assert(self.blocks@ =~= old(self).blocks@.insert(
                    index,
                    CacheLine {
                        value: old(self).blocks@[index].value,
                        modified: old(self).blocks@[index].modified,
                        stored: old(self).blocks@[index].stored,
                        atime: now,
                    },
                ));
                Some(block)
            },
            None => {
                assert(self.blocks@ =~= old(self).blocks@);
                None
            },
        }
    }

    /// Stores `inode` under its index. A new line is unmodified; a line that
    /// held a different record takes the new one and becomes modified.
    pub fn set_inode(&mut self, inode: &Inode, now: u64)
        ensures
            final(self).blocks@ == old(self).blocks@,
            final(self).inodes@.dom() == old(self).inodes@.dom().insert(inode.index),
            forall|key: u64|
                key != inode.index && old(self).inodes@.contains_key(key) ==> final(self).inodes@[key] == old(self).inodes@[key],
            final(self).inodes@[inode.index].value == *inode,
            final(self).inodes@[inode.index].modified == (old(self).inodes@.contains_key(
                inode.index,
            ) && (old(self).inodes@[inode.index].modified || old(self).inodes@[inode.index].value
                != *inode)),
            final(self).inodes@[inode.index].stored == (old(self).inodes@.contains_key(inode.index)
                && old(self).inodes@[inode.index].stored && old(self).inodes@[inode.index].value
                == *inode),
            old(self).inodes@.contains_key(inode.index) && old(self).inodes@[inode.index].value
                == *inode ==> final(self).inodes@ == old(self).inodes@,
    {
        let index = inode.index;
        match self.inodes.remove(&index) {
            Some(line) => {
                let mut line = line;
                line.update(inode, now);
                self.inodes.insert(index, line);
                proof {
                    if old(self).inodes@[index].value == *inode {
                        assert(self.inodes@ =~= old(self).inodes@);
                    }
                }
            },
            None => {
                self.inodes.insert(index, CacheLine::new(inode, now));
            },
        }
        assert(self.inodes@.dom() =~= old(self).inodes@.dom().insert(inode.index));
    }

    /// Stores `block` under its index. A new line is unmodified; a line that
    /// held different bytes takes the new ones and becomes modified.
    pub fn set_block(&mut self, block: &Block, now: u64)
        ensures
            final(self).inodes@ == old(self).inodes@,
            final(self).blocks@.dom() == old(self).blocks@.dom().insert(block.index),
            forall|key: u64|
                key != block.index && old(self).blocks@.contains_key(key) ==> final(self).blocks@[key] == old(self).blocks@[key],
            final(self).blocks@[block.index].value.index == block.index,
            final(self).blocks@[block.index].value.data@ == block.data@,
            final(self).blocks@[block.index].modified == (old(self).blocks@.contains_key(
                block.index,
            ) && (old(self).blocks@[block.index].modified || old(self).blocks@[block.index].value.data@ != block.data@ || old(self).blocks@[block.index].value.index != block.index)),
            final(self).blocks@[block.index].stored == (old(self).blocks@.contains_key(block.index)
                && old(self).blocks@[block.index].stored && old(self).blocks@[block.index].value.same(
                block,
            )),
            old(self).blocks@.contains_key(block.index) && old(self).blocks@[block.index].value.same(
                block,
            ) ==> final(self).blocks@ == old(self).blocks@,
    {
        let index = block.index;
        match self.blocks.remove(&index) {
            Some(line) => {
                let mut line = line;
                line.update(block, now);
                self.blocks.insert(index, line);
                proof {
                    if old(self).blocks@[index].value.same(block) {
                        assert(self.blocks@ =~= old(self).blocks@);
                    }
                }
            },
            None => {
                self.blocks.insert(index, CacheLine::new(block, now));
            },
        }
        assert(self.blocks@.dom() =~= old(self).blocks@.dom().insert(block.index));
    }

    /// Files `inode`, which was read from the device, under its index: the
    /// line is unmodified and known to be stored.
    pub fn hold_inode(&mut self, inode: &Inode, now: u64)
        ensures
            final(self).blocks@ == old(self).blocks@,
            final(self).inodes@.dom() == old(self).inodes@.dom().insert(inode.index),
            forall|key: u64|
                key != inode.index && old(self).inodes@.contains_key(key) ==> final(self).inodes@[key] == old(self).inodes@[key],
            final(self).inodes@[inode.index].value == *inode,
            !final(self).inodes@[inode.index].modified,
            final(self).inodes@[inode.index].stored,
    {
        self.inodes.insert(inode.index, CacheLine::read(inode, now));
        assert(self.inodes@.dom() =~= old(self).inodes@.dom().insert(inode.index));
    }

    /// Files `block`, which was read from the device, under its index: the
    /// line is unmodified and known to be stored.
    pub fn hold_block(&mut self, block: &Block, now: u64)
        ensures
            final(self).inodes@ == old(self).inodes@,
            final(self).blocks@.dom() == old(self).blocks@.dom().insert(block.index),
            forall|key: u64|
                key != block.index && old(self).blocks@.contains_key(key) ==> final(self).blocks@[key] == old(self).blocks@[key],
            final(self).blocks@[block.index].value.index == block.index,
            final(self).blocks@[block.index].value.data@ == block.data@,
            !final(self).blocks@[block.index].modified,
            final(self).blocks@[block.index].stored,
    {
        self.blocks.insert(block.index, CacheLine::read(block, now));
        assert(self.blocks@.dom() =~= old(self).blocks@.dom().insert(block.index));
    }
}

/// Whether one line is ordered before another: it was accessed earlier,
/// or at the same time and is an inode while the other is a block, or is
/// of the same kind and has the lower index.
pub open spec fn spec_key_before(left: (u64, u64, u64), right: (u64, u64, u64)) -> bool {
    left.0 < right.0 || (left.0 == right.0 && (left.1 < right.1 || (left.1 == right.1 && left.2
        < right.2)))
}

/// Computes `spec_key_before`.
pub fn key_before(left: (u64, u64, u64), right: (u64, u64, u64)) -> (before: bool)
    ensures
        before == spec_key_before(left, right),
{
    left.0 < right.0 || (left.0 == right.0 && (left.1 < right.1 || (left.1 == right.1 && left.2
        < right.2)))
}

/// Whether every line of `lines` is ordered before the lines behind it.
pub open spec fn spec_ordered(lines: Seq<(u64, u64, u64)>) -> bool {
    forall|first: int, second: int|
        0 <= first < second < lines.len() ==> spec_key_before(
            #[trigger] lines[first],
            #[trigger] lines[second],
        )
}

/// Whether `lines` is ordered.
pub fn is_ordered(lines: &Vec<(u64, u64, u64)>) -> (ordered: bool)
    ensures
        ordered == spec_ordered(lines@),
{
    if lines.len() < 2 {
        return true;
    }
    let mut at: usize = 1;
    while at < lines.len()
        invariant
            1 <= at <= lines@.len(),
            forall|first: int, second: int|
                0 <= first < second < at ==> spec_key_before(
                    #[trigger] lines@[first],
                    #[trigger] lines@[second],
                ),
        decreases lines@.len() - at,
    {
        if !key_before(lines[at - 1], lines[at]) {
            return false;
        }
        proof {
            assert forall|first: int, second: int| 0 <= first < second < at + 1 implies spec_key_before(
                #[trigger] lines@[first],
                #[trigger] lines@[second],
            ) by {
                if second == at && first < at - 1 {
                    assert(spec_key_before(lines@[first], lines@[at - 1]));
                }
            }
        }
        at += 1;
    }
    true
}

/// Orders lines by insertion: each line is put behind the last line that
/// is ordered before it.
pub fn ordered_by_insertion(lines: &Vec<(u64, u64, u64)>) -> (ordered: Vec<(u64, u64, u64)>)
    requires
        lines@.no_duplicates(),
    ensures
        spec_ordered(ordered@),
        ordered@.no_duplicates(),
        ordered@.to_set() == lines@.to_set(),
        ordered@.len() == lines@.len(),
{
    let mut ordered: Vec<(u64, u64, u64)> = Vec::new();
    let mut taken: usize = 0;
    while taken < lines.len()
        invariant
            taken <= lines@.len(),
            lines@.no_duplicates(),
            spec_ordered(ordered@),
            ordered@.len() == taken,
            forall|line: (u64, u64, u64)|
                ordered@.contains(line) <==> exists|from: int|
                    0 <= from < taken && lines@[from] == line,
        decreases lines@.len() - taken,
    {
        let line = lines[taken];
        let mut place: usize = 0;
        while place < ordered.len() && key_before(ordered[place], line)
            invariant
                place <= ordered@.len(),
                forall|before: int| 0 <= before < place ==> spec_key_before(ordered@[before], line),
            decreases ordered@.len() - place,
        {
            place += 1;
        }
        let ghost before = ordered@;
        ordered.insert(place, line);
        proof {
            assert(!before.contains(line)) by {
                if before.contains(line) {
                    let from = choose|from: int| 0 <= from < taken && lines@[from] == line;
                    assert(lines@[from] == lines@[taken as int]);
                }
            }
            assert forall|first: int, second: int|
                0 <= first < second < ordered@.len() implies spec_key_before(
                #[trigger] ordered@[first],
                #[trigger] ordered@[second],
            ) by {
                if second == place {
                    assert(ordered@[first] == before[first]);
                } else if first == place {
                    assert(ordered@[second] == before[second - 1]);
                    assert(before.contains(before[place as int]));
                    let held = before[place as int];
                    assert(!spec_key_before(held, line));
                    assert(held != line);
                    if second - 1 > place {
                        assert(spec_key_before(before[place as int], before[second - 1]));
                    }
                } else if first < place && second > place {
                    assert(ordered@[first] == before[first]);
                    assert(ordered@[second] == before[second - 1]);
                    if first < second - 1 {
                        assert(spec_key_before(before[first], before[second - 1]));
                    }
                } else if second < place {
                    assert(spec_key_before(before[first], before[second]));
                } else {
                    assert(spec_key_before(before[first - 1], before[second - 1]));
                }
            }
            assert forall|candidate: (u64, u64, u64)|
                ordered@.contains(candidate) <==> exists|from: int|
                    0 <= from < taken + 1 && lines@[from] == candidate by {
                if ordered@.contains(candidate) {
                    let at = choose|at: int| 0 <= at < ordered@.len() && ordered@[at] == candidate;
                    if at == place {
                        assert(lines@[taken as int] == candidate);
                    } else if at < place {
                        assert(before[at] == candidate);
                        assert(before.contains(candidate));
                    } else {
                        assert(before[at - 1] == candidate);
                        assert(before.contains(candidate));
                    }
                }
                if exists|from: int| 0 <= from < taken + 1 && lines@[from] == candidate {
                    let from = choose|from: int| 0 <= from < taken + 1 && lines@[from] == candidate;
                    if from == taken {
                        assert(ordered@[place as int] == candidate);
                    } else {
                        assert(before.contains(candidate));
                        let at = choose|at: int| 0 <= at < before.len() && before[at] == candidate;
                        if at < place {
                            assert(ordered@[at] == candidate);
                        } else {
                            assert(ordered@[at + 1] == candidate);
                        }
                    }
                }
            }
        }
        taken += 1;
    }
    proof {
        lemma_ordered_distinct(ordered@);
        assert(ordered@.to_set() =~= lines@.to_set()) by {
            assert forall|line: (u64, u64, u64)| ordered@.to_set().contains(line)
                == lines@.to_set().contains(line) by {
                if ordered@.contains(line) {
                    let from = choose|from: int| 0 <= from < taken && lines@[from] == line;
                    assert(lines@.contains(line));
                }
                if lines@.contains(line) {
                    let from = choose|from: int| 0 <= from < lines@.len() && lines@[from] == line;
                    assert(0 <= from < taken && lines@[from] == line);
                }
            }
        }
    }
    ordered
}

/// Ordered lines are distinct.
pub proof fn lemma_ordered_distinct(lines: Seq<(u64, u64, u64)>)
    requires
        spec_ordered(lines),
    ensures
        lines.no_duplicates(),
{
    assert forall|first: int, second: int|
        0 <= first < lines.len() && 0 <= second < lines.len() && first != second implies lines[first]
        != lines[second] by {
        if first < second {
            assert(spec_key_before(lines[first], lines[second]));
        } else {
            assert(spec_key_before(lines[second], lines[first]));
        }
    }
}

/// Orders distinct lines. The lines are put into an ordered map and taken
/// out again; should they come out in another order, they are ordered by
/// insertion.
pub fn ordered(lines: &Vec<(u64, u64, u64)>) -> (ordered: Vec<(u64, u64, u64)>)
    requires
        lines@.no_duplicates(),
    ensures
        spec_ordered(ordered@),
        ordered@.no_duplicates(),
        ordered@.to_set() == lines@.to_set(),
        ordered@.len() == lines@.len(),
{
    let mut order: BTreeMap<(u64, u64, u64), ()> = BTreeMap::new();
    let mut at: usize = 0;
    while at < lines.len()
        invariant
            at <= lines@.len(),
            forall|line: (u64, u64, u64)|
                order@.contains_key(line) <==> exists|from: int|
                    0 <= from < at && lines@[from] == line,
        decreases lines@.len() - at,
    {
        let ghost before = order@;
        order.insert(lines[at], ());
        proof {
            assert forall|line: (u64, u64, u64)|
                order@.contains_key(line) <==> exists|from: int|
                    0 <= from < at + 1 && lines@[from] == line by {
                if order@.contains_key(line) {
                    if line == lines@[at as int] {
                        assert(lines@[at as int] == line);
                    } else {
                        assert(before.contains_key(line));
                        let from = choose|from: int| 0 <= from < at && lines@[from] == line;
                        assert(0 <= from < at + 1 && lines@[from] == line);
                    }
                }
                if exists|from: int| 0 <= from < at + 1 && lines@[from] == line {
                    let from = choose|from: int| 0 <= from < at + 1 && lines@[from] == line;
                    if from < at {
                        assert(before.contains_key(line));
                    }
                }
            }
        }
        at += 1;
    }
    let candidate = keys_of(&order);
    proof {
        assert(candidate@.to_set() =~= lines@.to_set()) by {
            assert forall|line: (u64, u64, u64)| candidate@.to_set().contains(line)
                == lines@.to_set().contains(line) by {
                if order@.dom().contains(line) {
                    let from = choose|from: int| 0 <= from < at && lines@[from] == line;
                    assert(lines@.contains(line));
                }
                if lines@.contains(line) {
                    let from = choose|from: int| 0 <= from < lines@.len() && lines@[from] == line;
                    assert(0 <= from < at && lines@[from] == line);
                }
            }
        }
        lines@.unique_seq_to_set();
        candidate@.unique_seq_to_set();
    }
    if is_ordered(&candidate) {
        candidate
    } else {
        ordered_by_insertion(lines)
    }
}

impl Cache {
    /// The spare lines, each as its last access, its kind (0 for an
    /// inode, 1 for a block) and its index.
    pub open spec fn spare(&self) -> Set<(u64, u64, u64)> {
        Set::new(
            |line: (u64, u64, u64)|
                (line.1 == 0 && self.inodes@.contains_key(line.2) && self.inodes@[line.2].spare()
                    && self.inodes@[line.2].atime == line.0) || (line.1 == 1
                    && self.blocks@.contains_key(line.2) && self.blocks@[line.2].spare()
                    && self.blocks@[line.2].atime == line.0),
        )
    }

    /// There are no more spare lines than lines.
    pub proof fn lemma_spare_bounded(&self)
        ensures
            self.spare().finite(),
            self.spare().len() <= self.len(),
    {
        let inode_line = |key: u64| (self.inodes@[key].atime, 0u64, key);
        let block_line = |key: u64| (self.blocks@[key].atime, 1u64, key);
        let inode_lines = self.inodes@.dom().map(inode_line);
        let block_lines = self.blocks@.dom().map(block_line);
        vstd::set_lib::lemma_map_size_bound(self.inodes@.dom(), inode_lines, inode_line);
        vstd::set_lib::lemma_map_size_bound(self.blocks@.dom(), block_lines, block_line);
        vstd::set_lib::lemma_len_union(inode_lines, block_lines);
        assert(self.spare().subset_of(inode_lines.union(block_lines))) by {
            assert forall|line: (u64, u64, u64)| self.spare().contains(
                line,
            ) implies inode_lines.union(block_lines).contains(line) by {
                if line.1 == 0 {
                    assert(self.inodes@.dom().contains(line.2) && inode_line(line.2) == line);
                } else {
                    assert(self.blocks@.dom().contains(line.2) && block_line(line.2) == line);
                }
            }
        }
        vstd::set_lib::lemma_len_subset(self.spare(), inode_lines.union(block_lines));
    }

    /// The spare lines of the cache, each once.
    pub fn spare_lines(&self) -> (lines: Vec<(u64, u64, u64)>)
        ensures
            lines@.no_duplicates(),
            lines@.to_set() == self.spare(),
            self.spare().finite(),
            lines@.len() == self.spare().len(),
            lines@.len() <= self.len(),
    {
        let mut lines: Vec<(u64, u64, u64)> = Vec::new();
        let inode_keys = keys_of(&self.inodes);
        let mut at: usize = 0;
        while at < inode_keys.len()
            invariant
                at <= inode_keys@.len(),
                inode_keys@.no_duplicates(),
                inode_keys@.to_set() == self.inodes@.dom(),
                inode_keys@.len() == self.inodes@.dom().len(),
                lines@.len() <= at,
                lines@.no_duplicates(),
                forall|line: (u64, u64, u64)|
                    lines@.contains(line) <==> self.spare().contains(line) && line.1 == 0
                        && exists|from: int| 0 <= from < at && inode_keys@[from] == line.2,
            decreases inode_keys@.len() - at,
        {
            let key = inode_keys[at];
            assert(inode_keys@.to_set().contains(key));
            let ghost before = lines@;
            if let Some(line) = self.inodes.get(&key) {
                if !line.modified && line.stored {
                    lines.push((line.atime, 0, key));
                }
            }
            proof {
                assert forall|line: (u64, u64, u64)|
                    lines@.contains(line) <==> self.spare().contains(line) && line.1 == 0
                        && exists|from: int| 0 <= from < at + 1 && inode_keys@[from] == line.2 by {
                    if lines@.contains(line) {
                        let place = choose|place: int|
                            0 <= place < lines@.len() && lines@[place] == line;
                        if place < before.len() {
                            assert(before[place] == line);
                            assert(before.contains(line));
                            let from = choose|from: int|
                                0 <= from < at && inode_keys@[from] == line.2;
                            assert(0 <= from < at + 1 && inode_keys@[from] == line.2);
                        } else {
                            assert(inode_keys@[at as int] == line.2);
                        }
                    }
                    if self.spare().contains(line) && line.1 == 0 && exists|from: int|
                        0 <= from < at + 1 && inode_keys@[from] == line.2 {
                        let from = choose|from: int|
                            0 <= from < at + 1 && inode_keys@[from] == line.2;
                        if from < at {
                            assert(before.contains(line));
                            let place = choose|place: int|
                                0 <= place < before.len() && before[place] == line;
                            assert(lines@[place] == line);
                        } else {
                            assert(lines@[lines@.len() - 1] == line);
                        }
                    }
                }
                assert(lines@.no_duplicates()) by {
                    if lines@.len() > before.len() {
                        let added = lines@[before.len() as int];
                        if before.contains(added) {
                            let from = choose|from: int|
                                0 <= from < at && inode_keys@[from] == added.2;
                            assert(inode_keys@[from] == inode_keys@[at as int]);
                        }
                        assert forall|first: int, second: int|
                            0 <= first < lines@.len() && 0 <= second < lines@.len() && first
                                != second implies lines@[first] != lines@[second] by {
                            if first < before.len() && second < before.len() {
                                assert(before[first] != before[second]);
                            } else if first < before.len() {
                                assert(before.contains(before[first]));
                            } else {
                                assert(before.contains(before[second]));
                            }
                        }
                    }
                }
            }
            at += 1;
        }
        let ghost inode_lines = lines@;
        let block_keys = keys_of(&self.blocks);
        let mut at: usize = 0;
        while at < block_keys.len()
            invariant
                at <= block_keys@.len(),
                block_keys@.no_duplicates(),
                block_keys@.to_set() == self.blocks@.dom(),
                block_keys@.len() == self.blocks@.dom().len(),
                lines@.len() <= self.inodes@.dom().len() + at,
                lines@.no_duplicates(),
                forall|line: (u64, u64, u64)|
                    lines@.contains(line) <==> self.spare().contains(line) && (line.1 == 0
                        || exists|from: int| 0 <= from < at && block_keys@[from] == line.2),
            decreases block_keys@.len() - at,
        {
            let key = block_keys[at];
            assert(block_keys@.to_set().contains(key));
            let ghost before = lines@;
            if let Some(line) = self.blocks.get(&key) {
                if !line.modified && line.stored {
                    lines.push((line.atime, 1, key));
                }
            }
            proof {
                assert forall|line: (u64, u64, u64)|
                    lines@.contains(line) <==> self.spare().contains(line) && (line.1 == 0
                        || exists|from: int| 0 <= from < at + 1 && block_keys@[from] == line.2) by {
                    if lines@.contains(line) {
                        let place = choose|place: int|
                            0 <= place < lines@.len() && lines@[place] == line;
                        if place < before.len() {
                            assert(before[place] == line);
                            assert(before.contains(line));
                            if line.1 != 0 {
                                let from = choose|from: int|
                                    0 <= from < at && block_keys@[from] == line.2;
                                assert(0 <= from < at + 1 && block_keys@[from] == line.2);
                            }
                        } else {
                            assert(block_keys@[at as int] == line.2);
                        }
                    }
                    if self.spare().contains(line) && (line.1 == 0 || exists|from: int|
                        0 <= from < at + 1 && block_keys@[from] == line.2) {
                        if line.1 == 0 {
                            assert(before.contains(line));
                            let place = choose|place: int|
                                0 <= place < before.len() && before[place] == line;
                            assert(lines@[place] == line);
                        } else {
                            let from = choose|from: int|
                                0 <= from < at + 1 && block_keys@[from] == line.2;
                            if from < at {
                                assert(before.contains(line));
                                let place = choose|place: int|
                                    0 <= place < before.len() && before[place] == line;
                                assert(lines@[place] == line);
                            } else {
                                assert(lines@[lines@.len() - 1] == line);
                            }
                        }
                    }
                }
                assert(lines@.no_duplicates()) by {
                    if lines@.len() > before.len() {
                        let added = lines@[before.len() as int];
                        if before.contains(added) {
                            let from = choose|from: int|
                                0 <= from < at && block_keys@[from] == added.2;
                            assert(block_keys@[from] == block_keys@[at as int]);
                        }
                        assert forall|first: int, second: int|
                            0 <= first < lines@.len() && 0 <= second < lines@.len() && first
                                != second implies lines@[first] != lines@[second] by {
                            if first < before.len() && second < before.len() {
                                assert(before[first] != before[second]);
                            } else if first < before.len() {
                                assert(before.contains(before[first]));
                            } else {
                                assert(before.contains(before[second]));
                            }
                        }
                    }
                }
            }
            at += 1;
        }
        proof {
            assert(lines@.to_set() =~= self.spare()) by {
                assert forall|line: (u64, u64, u64)| lines@.to_set().contains(line)
                    == self.spare().contains(line) by {
                    if self.spare().contains(line) && line.1 != 0 {
                        assert(block_keys@.to_set().contains(line.2));
                        let from = choose|from: int|
                            0 <= from < block_keys@.len() && block_keys@[from] == line.2;
                        assert(0 <= from < at && block_keys@[from] == line.2);
                    }
                }
            }
            lines@.unique_seq_to_set();
        }
        lines
    }

    /// Evicts the spare lines that were accessed longest ago, so that only
    /// the `LRU_MAX_ENTRIES` spare lines that were accessed last remain. A
    /// line is spare when it is unmodified and the device stores it: modified
    /// lines and lines that were never stored stay. Of lines that were accessed at the same
    /// time, inodes are evicted before blocks, and lower indexes first.
    pub fn prune(&mut self) -> (result: Result<(), Error>)
        ensures
            result is Ok,
            old(self).wf() ==> final(self).wf(),
            old(self).len() <= LRU_MAX_ENTRIES ==> final(self).same_lines(old(self)),
            forall|key: u64| #[trigger]
                final(self).inodes@.contains_key(key) ==> old(self).inodes@.contains_key(key)
                    && final(self).inodes@[key] == old(self).inodes@[key],
            forall|key: u64| #[trigger]
                final(self).blocks@.contains_key(key) ==> old(self).blocks@.contains_key(key)
                    && final(self).blocks@[key] == old(self).blocks@[key],
            forall|key: u64| #[trigger]
                old(self).inodes@.contains_key(key) && old(self).inodes@[key].modified ==> final(self).inodes@.contains_key(key),
            forall|key: u64| #[trigger]
                old(self).blocks@.contains_key(key) && old(self).blocks@[key].modified ==> final(self).blocks@.contains_key(key),
            forall|key: u64| #[trigger]
                old(self).inodes@.contains_key(key) && !old(self).inodes@[key].stored ==> final(self).inodes@.contains_key(key),
            forall|key: u64| #[trigger]
                old(self).blocks@.contains_key(key) && !old(self).blocks@[key].stored ==> final(self).blocks@.contains_key(key),
            old(self).spare().finite(),
            final(self).spare().finite(),
            final(self).spare().len() == (if old(self).spare().len() <= LRU_MAX_ENTRIES {
                old(self).spare().len()
            } else {
                LRU_MAX_ENTRIES as nat
            }),
            forall|evicted: (u64, u64, u64), kept: (u64, u64, u64)|
                #![trigger old(self).spare().contains(evicted), final(self).spare().contains(kept)]
                old(self).spare().contains(evicted) && !final(self).spare().contains(
                    evicted,
                ) && final(self).spare().contains(kept) ==> spec_key_before(evicted, kept),
    {
        proof {
            self.lemma_spare_bounded();
        }
        let inode_lines = self.inodes.len();
        let block_lines = self.blocks.len();
        if inode_lines <= LRU_MAX_ENTRIES && block_lines <= LRU_MAX_ENTRIES - inode_lines {
            return Ok(());
        }
        let lines = self.spare_lines();
        if lines.len() <= LRU_MAX_ENTRIES {
            return Ok(());
        }
        let oldest_first = ordered(&lines);
        let excess = oldest_first.len() - LRU_MAX_ENTRIES;
        let mut at: usize = 0;
        while at < excess
            invariant
                at <= excess < oldest_first@.len(),
                excess == oldest_first@.len() - LRU_MAX_ENTRIES,
                spec_ordered(oldest_first@),
                oldest_first@.no_duplicates(),
                oldest_first@.to_set() == old(self).spare(),
                oldest_first@.len() == old(self).spare().len(),
                old(self).spare().finite(),
                forall|key: u64| #[trigger]
                    self.inodes@.contains_key(key) ==> old(self).inodes@.contains_key(key)
                        && self.inodes@[key] == old(self).inodes@[key],
                forall|key: u64| #[trigger]
                    self.blocks@.contains_key(key) ==> old(self).blocks@.contains_key(key)
                        && self.blocks@[key] == old(self).blocks@[key],
                forall|key: u64| #[trigger]
                    old(self).inodes@.contains_key(key) && old(self).inodes@[key].modified
                        ==> self.inodes@.contains_key(key),
                forall|key: u64| #[trigger]
                    old(self).blocks@.contains_key(key) && old(self).blocks@[key].modified
                        ==> self.blocks@.contains_key(key),
                forall|key: u64| #[trigger]
                    old(self).inodes@.contains_key(key) && !old(self).inodes@[key].stored
                        ==> self.inodes@.contains_key(key),
                forall|key: u64| #[trigger]
                    old(self).blocks@.contains_key(key) && !old(self).blocks@[key].stored
                        ==> self.blocks@.contains_key(key),
                forall|line: (u64, u64, u64)|
                    self.spare().contains(line) <==> exists|place: int|
                        at <= place < oldest_first@.len() && oldest_first@[place] == line,
            decreases excess - at,
        {
            let (atime, kind, index) = oldest_first[at];
            let ghost victim = oldest_first@[at as int];
            let ghost before = *self;
            proof {
                assert(oldest_first@.to_set().contains(victim));
                assert(self.spare().contains(victim));
            }
            if kind == 0 {
                self.inodes.remove(&index);
            } else {
                self.blocks.remove(&index);
            }
            proof {
                assert forall|line: (u64, u64, u64)|
                    self.spare().contains(line) <==> exists|place: int|
                        at + 1 <= place < oldest_first@.len() && oldest_first@[place] == line by {
                    if self.spare().contains(line) {
                        assert(before.spare().contains(line));
                        let place = choose|place: int|
                            at <= place < oldest_first@.len() && oldest_first@[place] == line;
                        assert(line != victim);
                        assert(place != at);
                    }
                    if exists|place: int|
                        at + 1 <= place < oldest_first@.len() && oldest_first@[place] == line {
                        let place = choose|place: int|
                            at + 1 <= place < oldest_first@.len() && oldest_first@[place] == line;
                        assert(before.spare().contains(line));
                        assert(oldest_first@[place] != oldest_first@[at as int]);
                        assert(line.1 != victim.1 || line.2 != victim.2) by {
                            if line.1 == victim.1 && line.2 == victim.2 {
                                assert(line.0 == victim.0);
                            }
                        }
                    }
                }
            }
            at += 1;
        }
        proof {
            let kept = oldest_first@.subrange(excess as int, oldest_first@.len() as int);
            assert(kept.no_duplicates()) by {
                assert forall|first: int, second: int|
                    0 <= first < kept.len() && 0 <= second < kept.len() && first
                        != second implies kept[first] != kept[second] by {
                    assert(oldest_first@[excess + first] != oldest_first@[excess + second]);
                }
            }
            assert(kept.to_set() =~= self.spare()) by {
                assert forall|line: (u64, u64, u64)| kept.to_set().contains(line)
                    == self.spare().contains(line) by {
                    if kept.contains(line) {
                        let place = choose|place: int| 0 <= place < kept.len() && kept[place] == line;
                        assert(oldest_first@[excess + place] == line);
                    }
                    if self.spare().contains(line) {
                        let place = choose|place: int|
                            excess <= place < oldest_first@.len() && oldest_first@[place] == line;
                        assert(kept[place - excess] == line);
                    }
                }
            }
            kept.unique_seq_to_set();
            assert forall|evicted: (u64, u64, u64), remaining: (u64, u64, u64)|
                #![trigger old(self).spare().contains(evicted), self.spare().contains(remaining)]
                old(self).spare().contains(evicted) && !self.spare().contains(evicted)
                    && self.spare().contains(remaining) implies spec_key_before(
                evicted,
                remaining,
            ) by {
                assert(oldest_first@.to_set().contains(evicted));
                let from = choose|from: int|
                    0 <= from < oldest_first@.len() && oldest_first@[from] == evicted;
                let place = choose|place: int|
                    excess <= place < oldest_first@.len() && oldest_first@[place] == remaining;
                if from >= excess {
                    assert(excess <= from < oldest_first@.len() && oldest_first@[from] == evicted);
                }
                assert(spec_key_before(oldest_first@[from], oldest_first@[place]));
            }
        }
        Ok(())
    }
}

} // verus!
