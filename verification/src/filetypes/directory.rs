//! Directories: a name and a list of entries kept in a byte file.

use vstd::prelude::*;
use vstd::string::StringSliceAdditionalSpecFns;
use vstd::utf8::encode_utf8;
use crate::error::Error;
use crate::filesystem::{Filesystem, ROOT_INODE};
use crate::filesystem::device::BlockDevice;
use crate::filetypes::{Directory, DirectoryChild, DirectoryChildIdentifier, Done, FileOperations,
    RawByteFile, RegularFile};
use crate::filetypes::directory_child::NAME_MAX;
use crate::filetypes::helpers::{read_string, timestamp_now};
use crate::structs::{FileType, Inode, NULL_BLOCK};

verus! {

/// Whether two texts are the same.
pub fn same_text(left: &str, right: &str) -> (same: bool)
    ensures
        same == (left@ == right@),
{
    let left = left.to_owned();
    let right = right.to_owned();
    left == right
}

/// Whether `at` is the place of the first entry that names inode `inode`.
pub open spec fn spec_first_of(children: Seq<DirectoryChild>, inode: u64, at: int) -> bool {
    &&& 0 <= at < children.len()
    &&& children[at].inode == inode
    &&& forall|before: int| 0 <= before < at ==> (#[trigger] children[before]).inode != inode
}

/// Whether `after` is `before` with the first entry that names inode `inode`
/// renamed to `name`.
pub open spec fn spec_renamed(
    before: Seq<DirectoryChild>,
    after: Seq<DirectoryChild>,
    inode: u64,
    name: Seq<char>,
) -> bool {
    exists|at: int| #[trigger]
        spec_first_of(before, inode, at) && spec_listing(after) == spec_listing(before).update(
            at,
            (inode, name),
        )
}

/// The position of the first entry that names inode `inode`.
pub fn position_of(children: &Vec<DirectoryChild>, inode: u64) -> (position: Option<usize>)
    ensures
        match position {
            Some(at) => at < children@.len() && children@[at as int].inode == inode
                && forall|before: int|
                0 <= before < at ==> (#[trigger] children@[before]).inode != inode,
            None => forall|at: int|
                0 <= at < children@.len() ==> (#[trigger] children@[at]).inode != inode,
        },
{
    let mut at: usize = 0;
    while at < children.len()
        invariant
            at <= children@.len(),
            forall|before: int| 0 <= before < at ==> (#[trigger] children@[before]).inode != inode,
        decreases children@.len() - at,
    {
        if children[at].inode == inode {
            return Some(at);
        }
        at += 1;
    }
    None
}

/// The entries of `children` as pairs of inode and name.
pub open spec fn spec_listing(children: Seq<DirectoryChild>) -> Seq<(u64, Seq<char>)> {
    Seq::new(children.len(), |at: int| (children[at].inode, children[at].name@))
}

/// Whether a pair names another inode than `inode`.
pub open spec fn spec_other(inode: u64) -> spec_fn((u64, Seq<char>)) -> bool {
    |entry: (u64, Seq<char>)| entry.0 != inode
}

/// The pairs of `listing` that do not name inode `inode`, in their order.
pub open spec fn spec_without(listing: Seq<(u64, Seq<char>)>, inode: u64) -> Seq<
    (u64, Seq<char>),
> {
    listing.filter(spec_other(inode))
}

/// Copies the entries that do not name inode `inode`, in their order.
pub fn without(children: &Vec<DirectoryChild>, inode: u64) -> (kept: Vec<DirectoryChild>)
    ensures
        spec_listing(kept@) == spec_without(spec_listing(children@), inode),
        kept@.len() <= children@.len(),
        (forall|at: int| 0 <= at < children@.len() ==> (#[trigger] children@[at]).wf()) ==> (
        forall|at: int| 0 <= at < kept@.len() ==> (#[trigger] kept@[at]).wf()),
{
    let mut kept: Vec<DirectoryChild> = Vec::new();
    let mut from: usize = 0;
    proof {
        reveal(Seq::filter);
        assert(spec_listing(children@.take(0)) =~= Seq::empty());
        assert(spec_listing(kept@) =~= Seq::empty());
    }
    while from < children.len()
        invariant
            from <= children@.len(),
            kept@.len() <= from,
            spec_listing(kept@) == spec_without(spec_listing(children@.take(from as int)), inode),
            (forall|at: int| 0 <= at < children@.len() ==> (#[trigger] children@[at]).wf()) ==> (
            forall|at: int| 0 <= at < kept@.len() ==> (#[trigger] kept@[at]).wf()),
        decreases children@.len() - from,
    {
        let ghost before = kept@;
        let ghost seen = spec_listing(children@.take(from as int));
        let ghost entry = (children@[from as int].inode, children@[from as int].name@);
        proof {
            assert(spec_listing(children@.take(from + 1)) =~= seen.push(entry));
            seen.lemma_filter_push(entry, spec_other(inode));
        }
        if children[from].inode != inode {
            let copy = DirectoryChild {
                inode: children[from].inode,
                name: children[from].name.clone(),
            };
            kept.push(copy);
            proof {
                assert(spec_listing(kept@) =~= spec_listing(before).push(entry));
                assert forall|at: int| 0 <= at < kept@.len() && (forall|at: int|
                    0 <= at < children@.len() ==> (#[trigger] children@[at]).wf()) implies (
                #[trigger] kept@[at]).wf() by {
                    if at < before.len() {
                        assert(kept@[at] == before[at]);
                    } else {
                        assert(children@[from as int].wf());
                    }
                }
            }
        }
        from += 1;
    }
    proof {
        assert(children@.take(from as int) =~= children@);
    }
    kept
}

/// The entries as stored: each entry's bytes, one after the other.
pub open spec fn spec_entries(children: Seq<DirectoryChild>) -> Seq<u8>
    decreases children.len(),
{
    if children.len() == 0 {
        Seq::empty()
    } else {
        spec_entries(children.drop_last()) + children.last().spec_bytes()
    }
}

/// The stream of a directory: its name in UTF-8, then its entries.
pub open spec fn spec_stream(name: Seq<char>, children: Seq<DirectoryChild>) -> Seq<u8> {
    encode_utf8(name) + spec_entries(children)
}

/// Where entry `place` starts in a stream whose entries start at `first`:
/// each entry is ten bytes and a name longer than the one before it.
pub open spec fn spec_entry_start(contents: Seq<u8>, first: int, place: nat) -> int
    decreases place,
{
    if place == 0 {
        first
    } else {
        let start = spec_entry_start(contents, first, (place - 1) as nat);
        start + 10 + DirectoryChild::spec_name_length(contents.subrange(start, start + 10))
    }
}

/// The inode that entry `place` of a stream names, where the entries
/// start at `first`.
pub open spec fn spec_entry_inode(contents: Seq<u8>, first: int, place: nat) -> u64 {
    let start = spec_entry_start(contents, first, place);
    crate::bytes::spec_u64_from_be_bytes(contents.subrange(start, start + 8))
}

/// The name of entry `place` of a stream whose entries start at `first`.
pub open spec fn spec_entry_name(contents: Seq<u8>, first: int, place: nat) -> Seq<char> {
    let start = spec_entry_start(contents, first, place);
    let end = spec_entry_start(contents, first, place + 1);
    vstd::utf8::decode_utf8(contents.subrange(start + 10, end))
}

/// Whether `child` is entry `place` of a stream whose entries start at `first`.
pub open spec fn spec_entry_is(
    contents: Seq<u8>,
    first: int,
    place: nat,
    child: DirectoryChild,
) -> bool {
    &&& child.inode == spec_entry_inode(contents, first, place)
    &&& child.name@ == spec_entry_name(contents, first, place)
}

/// The place of the first of the `count` entries of a stream, from place
/// `from` on, that has the name `name`.
pub open spec fn spec_stream_lookup(
    contents: Seq<u8>,
    first: int,
    count: nat,
    name: Seq<char>,
    from: nat,
) -> Option<nat>
    decreases
            (if from < count {
                count - from
            } else {
                0
            }),
{
    if from >= count {
        None
    } else if spec_entry_name(contents, first, from) == name {
        Some(from)
    } else {
        spec_stream_lookup(contents, first, count, name, from + 1)
    }
}

/// Looking a name up in the entries that were read from a stream is
/// looking it up in the stream.
pub proof fn lemma_lookup_parsed(
    children: Seq<DirectoryChild>,
    contents: Seq<u8>,
    first: int,
    name: Seq<char>,
    from: nat,
)
    requires
        forall|place: nat|
            place < children.len() ==> spec_entry_is(
                contents,
                first,
                place,
                #[trigger] children[place as int],
            ),
    ensures
        match spec_stream_lookup(contents, first, children.len(), name, from) {
            Some(place) => spec_first_named(children, name, from as int) == Some(place as int)
                && place < children.len(),
            None => spec_first_named(children, name, from as int) is None,
        },
    decreases
            (if from < children.len() {
                children.len() - from
            } else {
                0
            }),
{
    if from < children.len() {
        assert(spec_entry_is(contents, first, from, children[from as int]));
        if spec_entry_name(contents, first, from) != name {
            lemma_lookup_parsed(children, contents, first, name, from + 1);
        }
    }
}

/// The first `count` entries are stored in as many bytes as each of them
/// takes, and the entries stored behind them follow.
pub proof fn lemma_entries_take(children: Seq<DirectoryChild>, count: int)
    requires
        0 <= count < children.len(),
    ensures
        spec_entries(children.take(count + 1)) == spec_entries(children.take(count))
            + children[count].spec_bytes(),
{
    assert(children.take(count + 1).drop_last() =~= children.take(count));
    assert(children.take(count + 1).last() == children[count]);
}

/// In bytes that begin with the stream of a name and entries, entry
/// `place` is stored where the entries before it end.
pub proof fn lemma_entry_stored(
    contents: Seq<u8>,
    name: Seq<char>,
    children: Seq<DirectoryChild>,
    place: nat,
)
    requires
        spec_stream(name, children).len() <= contents.len(),
        contents.subrange(0, spec_stream(name, children).len() as int) == spec_stream(
            name,
            children,
        ),
        place < children.len(),
    ensures
        ({
            let start = (encode_utf8(name).len() + spec_entries(
                children.take(place as int),
            ).len()) as int;
            let stored = children[place as int].spec_bytes();
            &&& start + stored.len() <= spec_stream(name, children).len()
            &&& contents.subrange(start, start + stored.len()) == stored
            &&& start + stored.len() == encode_utf8(name).len() + spec_entries(
                children.take(place as int + 1),
            ).len()
        }),
{
    let stream = spec_stream(name, children);
    let first = encode_utf8(name).len() as int;
    let shorter = spec_entries(children.take(place as int));
    let start = first + shorter.len();
    let stored = children[place as int].spec_bytes();
    lemma_entries_take(children, place as int);
    lemma_entries_whole(children, place as int + 1);
    let longer = spec_entries(children.take(place as int + 1));
    assert(spec_entries(children).subrange(0, longer.len() as int) == longer);
    assert forall|at: int| 0 <= at < stored.len() implies contents[start + at] == stored[at] by {
        assert(contents.subrange(0, stream.len() as int)[start + at] == contents[start + at]);
        assert(stream[start + at] == spec_entries(children)[shorter.len() + at]);
        assert(spec_entries(children).subrange(0, longer.len() as int)[shorter.len() + at]
            == longer[shorter.len() + at]);
        assert(longer[shorter.len() + at] == stored[at]);
    }
    assert(contents.subrange(start, start + stored.len()) =~= stored);
}

/// A stream is read back as written: in bytes that begin with the stream
/// of a name and entries, entry `place` starts where the entries before it
/// end, and is the entry that was stored there.
pub proof fn lemma_stream_round_trip(
    contents: Seq<u8>,
    name: Seq<char>,
    children: Seq<DirectoryChild>,
    place: nat,
)
    requires
        spec_stream(name, children).len() <= contents.len(),
        contents.subrange(0, spec_stream(name, children).len() as int) == spec_stream(
            name,
            children,
        ),
        forall|at: int| 0 <= at < children.len() ==> (#[trigger] children[at]).wf(),
        place <= children.len(),
    ensures
        spec_entry_start(contents, encode_utf8(name).len() as int, place) == encode_utf8(
            name,
        ).len() + spec_entries(children.take(place as int)).len(),
        spec_entry_start(contents, encode_utf8(name).len() as int, place) <= spec_stream(
            name,
            children,
        ).len(),
        place < children.len() ==> spec_entry_is(
            contents,
            encode_utf8(name).len() as int,
            place,
            children[place as int],
        ),
    decreases place,
{
    let first = encode_utf8(name).len() as int;
    lemma_entries_whole(children, place as int);
    if place == 0 {
        assert(children.take(0) =~= Seq::<DirectoryChild>::empty());
    } else {
        let before = (place - 1) as nat;
        lemma_stream_round_trip(contents, name, children, before);
        lemma_entry_stored(contents, name, children, before);
        lemma_entry_read(contents, spec_entry_start(contents, first, before), children[before as int]);
    }
    if place < children.len() {
        lemma_entry_stored(contents, name, children, place);
        lemma_entry_read(contents, spec_entry_start(contents, first, place), children[place as int]);
    }
}

/// Bytes that hold an entry at `start` give the entry back: its length,
/// its inode and its name.
pub proof fn lemma_entry_read(contents: Seq<u8>, start: int, child: DirectoryChild)
    requires
        child.wf(),
        0 <= start,
        start + child.spec_bytes().len() <= contents.len(),
        contents.subrange(start, start + child.spec_bytes().len()) == child.spec_bytes(),
    ensures
        start + 10 + DirectoryChild::spec_name_length(contents.subrange(start, start + 10))
            == start + child.spec_bytes().len(),
        child.inode == crate::bytes::spec_u64_from_be_bytes(contents.subrange(start, start + 8)),
        child.name@ == vstd::utf8::decode_utf8(
            contents.subrange(start + 10, start + child.spec_bytes().len()),
        ),
{
    child.lemma_round_trip();
    let stored = child.spec_bytes();
    lemma_held_parts(contents, start, stored);
    assert(DirectoryChild::spec_name_bytes(stored) == stored.subrange(10, stored.len() as int));
}

/// The parts of an entry that is held at offset `start` of a stream are the
/// parts of the entry.
proof fn lemma_held_parts(contents: Seq<u8>, start: int, stored: Seq<u8>)
    requires
        0 <= start,
        stored.len() >= 10,
        start + stored.len() <= contents.len(),
        contents.subrange(start, start + stored.len()) == stored,
    ensures
        contents.subrange(start, start + 10).subrange(8, 10) == stored.subrange(8, 10),
        contents.subrange(start, start + 8) == stored.subrange(0, 8),
        contents.subrange(start + 10, start + stored.len()) == stored.subrange(
            10,
            stored.len() as int,
        ),
{
    let held = contents.subrange(start, start + stored.len());
    assert(contents.subrange(start, start + 10).subrange(8, 10) =~= held.subrange(8, 10));
    assert(contents.subrange(start, start + 8) =~= held.subrange(0, 8));
    assert(contents.subrange(start + 10, start + stored.len()) =~= held.subrange(
        10,
        stored.len() as int,
    ));
}

/// The first `count` entries are stored at the start of all entries.
pub proof fn lemma_entries_whole(children: Seq<DirectoryChild>, count: int)
    requires
        0 <= count <= children.len(),
    ensures
        spec_entries(children.take(count)).len() <= spec_entries(children).len(),
        spec_entries(children).subrange(0, spec_entries(children.take(count)).len() as int)
            == spec_entries(children.take(count)),
    decreases children.len() - count,
{
    if count == children.len() {
        assert(children.take(count) =~= children);
        assert(spec_entries(children).subrange(0, spec_entries(children).len() as int)
            =~= spec_entries(children));
    } else {
        lemma_entries_whole(children, count + 1);
        lemma_entries_take(children, count);
        let longer = spec_entries(children.take(count + 1));
        let shorter = spec_entries(children.take(count));
        assert(spec_entries(children).subrange(0, longer.len() as int).subrange(
            0,
            shorter.len() as int,
        ) =~= spec_entries(children).subrange(0, shorter.len() as int));
        assert(longer.subrange(0, shorter.len() as int) =~= shorter);
    }
}

/// Whether entry `at` of `children` has the name `name`.
pub open spec fn spec_named(children: Seq<DirectoryChild>, at: int, name: Seq<char>) -> bool {
    0 <= at < children.len() && children[at].name@ == name
}

/// Whether some entry of `children` has the name `name` and names inode `inode`.
pub open spec fn spec_has_entry(children: Seq<DirectoryChild>, name: Seq<char>, inode: u64)
    -> bool {
    exists|at: int| #[trigger] spec_named(children, at, name) && children[at].inode == inode
}

/// A directory that was written is found as written: in a stream that
/// starts with the name and the entries, looking a name up finds the place
/// of the first entry that has it, and that place holds the entry's inode.
pub proof fn lemma_stream_lists(
    contents: Seq<u8>,
    name: Seq<char>,
    children: Seq<DirectoryChild>,
    wanted: Seq<char>,
)
    requires
        spec_stream(name, children).len() <= contents.len(),
        contents.subrange(0, spec_stream(name, children).len() as int) == spec_stream(
            name,
            children,
        ),
        forall|at: int| 0 <= at < children.len() ==> (#[trigger] children[at]).wf(),
    ensures
        match spec_stream_lookup(
            contents,
            encode_utf8(name).len() as int,
            children.len(),
            wanted,
            0,
        ) {
            Some(place) => spec_first_named(children, wanted, 0) == Some(place as int)
                && place < children.len() && spec_entry_inode(
                contents,
                encode_utf8(name).len() as int,
                place,
            ) == children[place as int].inode,
            None => spec_first_named(children, wanted, 0) is None,
        },
{
    let first = encode_utf8(name).len() as int;
    assert forall|place: nat| place < children.len() implies spec_entry_is(
        contents,
        first,
        place,
        #[trigger] children[place as int],
    ) by {
        lemma_stream_round_trip(contents, name, children, place);
    }
    lemma_lookup_parsed(children, contents, first, wanted, 0);
}

/// Whether the listing `after` is `before` with the first pair of inode
/// `inode` given the name `name`.
pub open spec fn spec_listing_renamed(
    before: Seq<(u64, Seq<char>)>,
    after: Seq<(u64, Seq<char>)>,
    inode: u64,
    name: Seq<char>,
) -> bool {
    exists|at: int|
        {
            &&& 0 <= at < before.len()
            &&& before[at].0 == inode
            &&& forall|earlier: int| 0 <= earlier < at ==> (#[trigger] before[earlier]).0 != inode
            &&& after == #[trigger] before.update(at, (inode, name))
        }
}

/// Entries of which one was renamed list what the listing with that pair
/// renamed lists.
pub proof fn lemma_listing_renamed(
    before: Seq<DirectoryChild>,
    after: Seq<DirectoryChild>,
    inode: u64,
    name: Seq<char>,
)
    requires
        spec_renamed(before, after, inode, name),
    ensures
        spec_listing_renamed(spec_listing(before), spec_listing(after), inode, name),
{
    let at = choose|at: int| #[trigger]
        spec_first_of(before, inode, at) && spec_listing(after) == spec_listing(before).update(
            at,
            (inode, name),
        );
    assert forall|earlier: int| 0 <= earlier < at implies (#[trigger] spec_listing(
        before,
    )[earlier]).0 != inode by {
        assert(before[earlier].inode != inode);
    }
    assert(spec_listing(after) == spec_listing(before).update(at, (inode, name)));
}

/// Entries that hold a name with an inode list the pair.
pub proof fn lemma_listed(children: Seq<DirectoryChild>, inode: u64, name: Seq<char>)
    ensures
        spec_has_entry(children, name, inode) ==> spec_listing(children).contains((inode, name)),
{
    if spec_has_entry(children, name, inode) {
        let at = choose|at: int| #[trigger]
            spec_named(children, at, name) && children[at].inode == inode;
        assert(spec_listing(children)[at] == (inode, name));
    }
}

/// Number of bytes that the entries of a listing take in a stream.
pub open spec fn spec_listing_length(listing: Seq<(u64, Seq<char>)>) -> int
    decreases listing.len(),
{
    if listing.len() == 0 {
        0
    } else {
        spec_listing_length(listing.drop_last()) + 10 + encode_utf8(listing.last().1).len()
    }
}

/// The entries take as many bytes as their listing tells.
pub proof fn lemma_listing_length(children: Seq<DirectoryChild>)
    requires
        forall|at: int| 0 <= at < children.len() ==> (#[trigger] children[at]).wf(),
    ensures
        spec_entries(children).len() == spec_listing_length(spec_listing(children)),
    decreases children.len(),
{
    if children.len() > 0 {
        let rest = children.drop_last();
        assert forall|at: int| 0 <= at < rest.len() implies (#[trigger] rest[at]).wf() by {
            assert(rest[at] == children[at]);
        }
        lemma_listing_length(rest);
        children.last().lemma_round_trip();
        assert(spec_listing(children).drop_last() =~= spec_listing(rest));
    } else {
        assert(spec_listing(children) =~= Seq::empty());
    }
}

/// The entries that a stream holds, as pairs of inode and name.
pub open spec fn spec_stream_listing(contents: Seq<u8>, first: int, count: nat) -> Seq<
    (u64, Seq<char>),
> {
    Seq::new(
        count,
        |place: int|
            (
                spec_entry_inode(contents, first, place as nat),
                spec_entry_name(contents, first, place as nat),
            ),
    )
}

/// Whether the record of directory `index` names it and describes a
/// consistent stream.
pub open spec fn spec_whole<D: BlockDevice>(fs: &Filesystem<D>, index: u64) -> bool {
    match fs.inode_view(index) {
        Some(record) => record.index == index && RawByteFile::spec_load(fs, record).wf(fs),
        None => false,
    }
}

/// The entries that directory `index` lists in `fs`, as its record and
/// its stream tell them.
pub open spec fn spec_listing_of<D: BlockDevice>(fs: &Filesystem<D>, index: u64) -> Seq<
    (u64, Seq<char>),
> {
    match fs.inode_view(index) {
        Some(record) => spec_stream_listing(
            RawByteFile::spec_load(fs, record).contents(fs),
            record.metadata[2] as int,
            record.metadata[1] as nat,
        ),
        None => Seq::empty(),
    }
}

/// The name of directory `index` in `fs`, as its record and its stream
/// tell it.
pub open spec fn spec_name_of<D: BlockDevice>(fs: &Filesystem<D>, index: u64) -> Seq<char> {
    match fs.inode_view(index) {
        Some(record) => vstd::utf8::decode_utf8(
            RawByteFile::spec_load(fs, record).contents(fs).subrange(0, record.metadata[2] as int),
        ),
        None => Seq::empty(),
    }
}

/// A stream that is the name and the entries holds that name and those
/// entries.
pub proof fn lemma_stream_describes(contents: Seq<u8>, name: Seq<char>, children: Seq<DirectoryChild>)
    requires
        contents == spec_stream(name, children),
        forall|at: int| 0 <= at < children.len() ==> (#[trigger] children[at]).wf(),
    ensures
        spec_stream_listing(contents, encode_utf8(name).len() as int, children.len())
            == spec_listing(children),
        vstd::utf8::decode_utf8(contents.subrange(0, encode_utf8(name).len() as int)) == name,
{
    let first = encode_utf8(name).len() as int;
    assert(contents.subrange(0, contents.len() as int) =~= contents);
    assert forall|place: int| 0 <= place < children.len() implies spec_stream_listing(
        contents,
        first,
        children.len(),
    )[place] == spec_listing(children)[place] by {
        lemma_stream_round_trip(contents, name, children, place as nat);
    }
    assert(spec_stream_listing(contents, first, children.len()) =~= spec_listing(children));
    assert(contents.subrange(0, first) =~= encode_utf8(name));
    vstd::utf8::encode_utf8_decode_utf8(name);
}

/// The bytes of the name of entry `place` of a stream.
pub open spec fn spec_entry_text(contents: Seq<u8>, first: int, place: nat) -> Seq<u8> {
    contents.subrange(
        spec_entry_start(contents, first, place) + 10,
        spec_entry_start(contents, first, place + 1),
    )
}

/// Whether a stream holds the name of `first` bytes and `count` entries
/// whole: the last entry ends within it.
pub open spec fn spec_stream_fits(contents: Seq<u8>, first: int, count: nat) -> bool {
    spec_entry_start(contents, first, count) <= contents.len()
}

/// Whether the name of a stream and the names of its `count` entries are
/// valid UTF-8.
pub open spec fn spec_stream_text(contents: Seq<u8>, first: int, count: nat) -> bool {
    &&& vstd::utf8::valid_utf8(contents.subrange(0, first))
    &&& forall|place: nat|
        place < count ==> vstd::utf8::valid_utf8(#[trigger] spec_entry_text(contents, first, place))
}

/// Entries start one behind the other.
pub proof fn lemma_entry_start_monotone(contents: Seq<u8>, first: int, from: nat, to: nat)
    requires
        from <= to,
    ensures
        spec_entry_start(contents, first, from) <= spec_entry_start(contents, first, to),
    decreases to,
{
    if from < to {
        lemma_entry_start_monotone(contents, first, from, (to - 1) as nat);
    }
}

/// Whether loading directory `index` of `fs` asks nothing of the device and
/// finds a stream that it can read: the inode is allocated, its record and
/// every block of its consistent chain are cached, and the stream holds
/// the name and every entry whole, as text.
pub open spec fn spec_loads<D: BlockDevice>(fs: &Filesystem<D>, index: u64) -> bool {
    &&& fs.inode_live(index)
    &&& fs.cache.inodes@.contains_key(index)
    &&& match fs.inode_view(index) {
        Some(record) => {
            let described = RawByteFile::spec_load(fs, record);
            let contents = described.contents(fs);
            let first = record.metadata[2] as int;
            let count = record.metadata[1] as nat;
            &&& described.wf(fs)
            &&& described.cached(fs)
            &&& first <= usize::MAX
            &&& spec_stream_fits(contents, first, count)
            &&& spec_stream_text(contents, first, count)
        },
        None => false,
    }
}

/// What the failure of loading the directory that `record` describes in
/// `fs` tells of its stream: the device refused, or the stream ends before
/// its last entry, or a name in it is no text.
pub open spec fn spec_load_failure<D: BlockDevice>(fs: &Filesystem<D>, record: Inode, e: Error) -> bool {
    let contents = RawByteFile::spec_load(fs, record).contents(fs);
    let first = record.metadata[2] as int;
    let count = record.metadata[1] as nat;
    ||| e is Io
    ||| e is OutOfBounds && (!spec_stream_fits(contents, first, count) || first > usize::MAX)
    ||| e is Utf8 && !spec_stream_text(contents, first, count)
}

/// What the failure of entering a name in directory `parent` tells: the
/// directory is not allocated, or no record of it is stored, or its stream
/// cannot be loaded, or the name is longer than an entry holds, or the
/// directory lists the name with that inode already.
pub open spec fn spec_entry_failure<D: BlockDevice>(
    fs: &Filesystem<D>,
    parent: u64,
    inode: u64,
    name: Seq<char>,
    e: Error,
) -> bool {
    if fs.inode_live(parent) {
        match fs.inode_view(parent) {
            Some(record) => RawByteFile::spec_load(fs, record).wf(fs) ==> {
                ||| spec_load_failure(fs, record, e)
                ||| e is OutOfBounds && encode_utf8(name).len() > NAME_MAX
                ||| e is NameOrInodeDuplicate && spec_listing_of(fs, parent).contains(
                    (inode, name),
                )
            },
            None => e is Io || e is InsufficientBytes,
        }
    } else {
        e is OutOfBounds
    }
}

/// What the failure of removing the child that `record` describes tells,
/// where the record's file is consistent: the device refused, the child is
/// neither file nor directory, it is a directory that has entries, or it is
/// a directory whose stream cannot be loaded.
pub open spec fn spec_child_failure<D: BlockDevice>(fs: &Filesystem<D>, record: Inode, e: Error) -> bool {
    ||| e is Io
    ||| e is NullBlock && record.kind != FileType::RegularFile && record.kind
        != FileType::Directory
    ||| e is DirectoryNotEmpty && record.kind == FileType::Directory && record.metadata[1] > 0
    ||| record.kind == FileType::Directory && spec_load_failure(fs, record, e)
    ||| !RawByteFile::spec_load(fs, record).wf(fs)
}

/// What the failure of removing child `target` tells: the inode is not
/// allocated, or no record of it is stored, or what `spec_child_failure`
/// tells of its record.
pub open spec fn spec_removal_failure<D: BlockDevice>(fs: &Filesystem<D>, target: u64, e: Error) -> bool {
    if fs.inode_live(target) {
        match fs.inode_view(target) {
            Some(record) => record.index == target ==> spec_child_failure(fs, record, e),
            None => e is Io || e is InsufficientBytes,
        }
    } else {
        e is OutOfBounds
    }
}

/// The inode that `child` identifies among `children`: that of the first
/// entry with the name, or the inode itself.
pub open spec fn spec_identified(
    children: Seq<DirectoryChild>,
    child: DirectoryChildIdentifier,
) -> Option<u64> {
    match child {
        DirectoryChildIdentifier::Name(name) => match spec_first_named(children, name@, 0) {
            Some(at) => Some(children[at].inode),
            None => None,
        },
        DirectoryChildIdentifier::Inode(index) => Some(index),
    }
}

/// The position of the first entry, from `from` on, that has the name `name`.
pub open spec fn spec_first_named(children: Seq<DirectoryChild>, name: Seq<char>, from: int)
    -> Option<int>
    decreases
            (if from < children.len() {
                children.len() - from
            } else {
                0
            }),
{
    if from < 0 || from >= children.len() {
        None
    } else if children[from].name@ == name {
        Some(from)
    } else {
        spec_first_named(children, name, from + 1)
    }
}

impl Directory {
    /// The stream can be addressed in `fs`, and every entry can be stored.
    pub open spec fn wf<D: BlockDevice>(&self, fs: &Filesystem<D>) -> bool {
        &&& self.file.sound(fs)
        &&& forall|at: int| 0 <= at < self.children@.len() ==> (#[trigger] self.children@[at]).wf()
    }

    /// Whether the record `after` has what a flush keeps of the record
    /// `before`: the index, the kind, the mode, the owner, the times but that
    /// of modification, and the parent.
    pub open spec fn kept(before: Inode, after: Inode) -> bool {
        &&& after.index == before.index
        &&& after.kind == before.kind
        &&& after.mode == before.mode
        &&& after.uid == before.uid
        &&& after.gid == before.gid
        &&& after.atime == before.atime
        &&& after.ctime == before.ctime
        &&& after.dtime == before.dtime
        &&& after.metadata[0] == before.metadata[0]
        &&& after.metadata[3] == before.metadata[3]
        &&& after.metadata[4] == before.metadata[4]
    }

    /// Whether writing a directory back has left the rest as it was: every
    /// file that was consistent and shared no block with the stream before
    /// is consistent, with its bytes and its blocks, and shares no block
    /// with the stream after, every record but that of inode `index` is as
    /// before, and the blocks that the stream took are those that are no
    /// longer free.
    pub open spec fn framed<D: BlockDevice>(
        after: &Filesystem<D>,
        before: &Filesystem<D>,
        written: &RawByteFile,
        origin: &RawByteFile,
        index: u64,
    ) -> bool {
        &&& forall|other: RawByteFile| #[trigger]
            other.wf(before) && other.apart(origin, before) ==> other.wf(after) && other.contents(
                after,
            ) == other.contents(before) && other.apart(written, after) && other.fixed(after, before)
        &&& forall|other: u64|
            other != index ==> #[trigger] after.inode_view(other) == before.inode_view(other)
        &&& after.superblock.blocks_free + written.block_count == before.superblock.blocks_free
            + origin.block_count
    }

    /// Whether entry `at` has the name `name`.
    #[verifier::inline]
    pub open spec fn named(&self, at: int, name: Seq<char>) -> bool {
        spec_named(self.children@, at, name)
    }

    /// Whether some entry has the name `name` and names inode `inode`.
    #[verifier::inline]
    pub open spec fn has_entry(&self, name: Seq<char>, inode: u64) -> bool {
        spec_has_entry(self.children@, name, inode)
    }

    /// The inode of a child: of the first entry with the given name, or the
    /// given inode itself. `NotFound` when no entry has the name.
    pub fn get_child_inode(&self, child: DirectoryChildIdentifier) -> (result: Result<u64, Error>)
        ensures
            match child {
                DirectoryChildIdentifier::Name(name) => match spec_first_named(
                    self.children@,
                    name@,
                    0,
                ) {
                    Some(at) => result matches Ok(inode) && inode == self.children@[at].inode,
                    None => result matches Err(e) && e is NotFound,
                },
                DirectoryChildIdentifier::Inode(index) => result matches Ok(inode) && inode
                    == index,
            },
    {
        match &child {
            DirectoryChildIdentifier::Name(name) => {
                let mut at: usize = 0;
                while at < self.children.len()
                    invariant
                        at <= self.children@.len(),
                        child matches DirectoryChildIdentifier::Name(given) && given@ == name@,
                        spec_first_named(self.children@, name@, 0) == spec_first_named(
                            self.children@,
                            name@,
                            at as int,
                        ),
                    decreases self.children@.len() - at,
                {
                    if same_text(self.children[at].name.as_str(), name) {
                        assert(spec_first_named(self.children@, name@, at as int) == Some(
                            at as int,
                        ));
                        return Ok(self.children[at].inode);
                    }
                    at += 1;
                }
                Err(Error::NotFound)
            },
            DirectoryChildIdentifier::Inode(index) => Ok(*index),
        }
    }

    /// Appends an entry. `NameOrInodeDuplicate` when an entry with the same
    /// name and inode exists; `OutOfBounds` when the name is longer than an
    /// entry can store. The directory counts as modified either way.
    pub fn add_child(&mut self, name: &str, inode: u64) -> (result: Result<(), Error>)
        ensures
            final(self).modified,
            final(self).inode == old(self).inode,
            final(self).file == old(self).file,
            final(self).name == old(self).name,
            final(self).removed == old(self).removed,
            (forall|at: int|
                0 <= at < old(self).children@.len() ==> (#[trigger] old(self).children@[at]).wf())
                ==> (forall|at: int|
                0 <= at < final(self).children@.len() ==> (#[trigger] final(self).children@[at]).wf()),
            match result {
                Ok(_) => {
                    &&& !old(self).has_entry(name@, inode)
                    &&& encode_utf8(name@).len() <= NAME_MAX
                    &&& final(self).children@.len() == old(self).children@.len() + 1
                    &&& final(self).children@.last().inode == inode
                    &&& final(self).children@.last().name@ == name@
                    &&& final(self).children@.drop_last() == old(self).children@
                },
                Err(e) => {
                    &&& final(self).children@ == old(self).children@
                    &&& if old(self).has_entry(name@, inode) {
                        e is NameOrInodeDuplicate
                    } else {
                        e is OutOfBounds && encode_utf8(name@).len() > NAME_MAX
                    }
                },
            },
    {
        self.modified = true;
        let mut at: usize = 0;
        while at < self.children.len()
            invariant
                at <= self.children@.len(),
                self.modified,
                self.inode == old(self).inode,
                self.file == old(self).file,
                self.name == old(self).name,
                self.removed == old(self).removed,
                self.children@ == old(self).children@,
                forall|before: int|
                    0 <= before < at ==> !(#[trigger] self.named(before, name@)
                        && self.children@[before].inode == inode),
            decreases self.children@.len() - at,
        {
            if self.children[at].inode == inode && same_text(
                self.children[at].name.as_str(),
                name,
            ) {
                assert(self.named(at as int, name@));
                return Err(Error::NameOrInodeDuplicate);
            }
            at += 1;
        }
        if name.as_bytes().len() > NAME_MAX {
            return Err(Error::OutOfBounds);
        }
        proof {
            if old(self).has_entry(name@, inode) {
                let found = choose|found: int| #[trigger]
                    spec_named(old(self).children@, found, name@) && old(self).children@[found].inode == inode;
                assert(self.named(found, name@));
            }
        }
        let child = DirectoryChild { inode, name: name.to_owned() };
        self.children.push(child);
        assert(self.children@.drop_last() =~= old(self).children@);
        assert forall|at: int| 0 <= at < self.children@.len() && (forall|before: int|
            0 <= before < old(self).children@.len() ==> (#[trigger] old(self).children@[before]).wf()) implies (#[trigger] self.children@[at]).wf() by {
            if at < old(self).children@.len() {
                assert(self.children@[at] == old(self).children@[at]);
            }
        }
        Ok(())
    }

    /// Removes a directory without entries: every block of its stream and
    /// the inode are released. `DirectoryNotEmpty`, with nothing changed,
    /// when the directory has entries.
    pub fn remove_empty<D: BlockDevice>(self, fs: &mut Filesystem<D>) -> (result: Result<
        (),
        Error,
    >)
        requires
            old(fs).wf(),
            self.wf(old(fs)),
        ensures
            final(fs).wf(),
            RawByteFile::same_geometry(final(fs), old(fs)),
            self.children@.len() > 0 ==> (result matches Err(e) && e is DirectoryNotEmpty)
                && final(fs).unchanged_from(old(fs)),
            self.children@.len() == 0 && !old(fs).inode_live(self.inode.index) ==> (
            result matches Err(e) && e is OutOfBounds) && final(fs).unchanged_from(old(fs)),
            self.children@.len() == 0 ==> RawByteFile::removal(
                final(fs),
                old(fs),
                self.inode.index,
                result,
            ),
            self.children@.len() == 0 && result is Ok ==> RawByteFile::inode_released(
                final(fs),
                old(fs),
                self.inode.index,
            ),
            final(fs).inodes_within(old(fs)),
            result is Ok ==> final(fs).superblock.inodes_free > old(fs).superblock.inodes_free,
    {
        if self.children.len() > 0 {
            return Err(Error::DirectoryNotEmpty);
        }
        RawByteFile::remove(fs, self.inode.index)
    }

    /// Moves an entry to another directory, or renames it in place. The
    /// entry is named by its name or its inode. With this directory as the
    /// new parent the first entry of that inode gets the new name. With
    /// another one the entry is appended to that directory, which is
    /// written back, and every entry of that inode leaves this directory.
    /// `NotFound` when this directory has no such entry. What became of
    /// writing the other directory back is handed on; where it succeeded
    /// that directory lists the entry behind what it listed.
    pub fn transfer_child<D: BlockDevice>(
        &mut self,
        fs: &mut Filesystem<D>,
        child: DirectoryChildIdentifier,
        new_parent: u64,
        new_name: &str,
    ) -> (result: Result<Done<()>, Error>)
        requires
            old(fs).wf(),
            old(self).wf(old(fs)),
        ensures
            final(fs).wf(),
            RawByteFile::same_geometry(final(fs), old(fs)),
            final(fs).same_inodes(old(fs)),
            final(self).wf(final(fs)),
            final(self).inode == old(self).inode,
            final(self).file == old(self).file,
            final(self).name == old(self).name,
            final(self).removed == old(self).removed,
            result is Ok ==> final(self).modified,
            result is Err ==> final(self).children@ == old(self).children@ && final(self).modified
                == old(self).modified,
            result is Err ==> final(fs).cached_from(old(fs)) && final(fs).same_records(old(fs)),
            (new_parent != old(self).inode.index && !old(fs).inode_live(new_parent)
                && spec_identified(old(self).children@, child) is Some) ==> (
            result matches Err(e) && e is OutOfBounds),
            (child matches DirectoryChildIdentifier::Name(name) && spec_first_named(
                old(self).children@,
                name@,
                0,
            ) is None) ==> (result matches Err(e) && e is NotFound) && final(fs).unchanged_from(
                old(fs),
            ),
            match spec_identified(old(self).children@, child) {
                Some(target) => if new_parent == old(self).inode.index {
                    &&& *final(fs) == *old(fs)
                    &&& match result {
                        Ok(_) => encode_utf8(new_name@).len() <= NAME_MAX && spec_renamed(
                            old(self).children@,
                            final(self).children@,
                            target,
                            new_name@,
                        ),
                        Err(e) => if encode_utf8(new_name@).len() > NAME_MAX {
                            e is OutOfBounds
                        } else {
                            e is NotFound && forall|at: int|
                                0 <= at < old(self).children@.len() ==> (
                                #[trigger] old(self).children@[at]).inode != target
                        },
                    }
                } else {
                    &&& result is Ok ==> spec_listing(final(self).children@) == spec_without(
                        spec_listing(old(self).children@),
                        target,
                    )
                    &&& result matches Err(e) ==> spec_entry_failure(
                        old(fs),
                        new_parent,
                        target,
                        new_name@,
                        e,
                    )
                },
                None => result matches Err(e) && e is NotFound,
            },
            result matches Ok(done) ==> (match spec_identified(old(self).children@, child) {
                Some(target) => if new_parent == old(self).inode.index {
                    done.write_back is Ok
                } else {
                    old(fs).inode_live(new_parent) && spec_whole(old(fs), new_parent) ==> (
                    match done.write_back {
                        Ok(_) => {
                            &&& spec_whole(final(fs), new_parent)
                            &&& spec_listing_of(final(fs), new_parent) == spec_listing_of(
                                old(fs),
                                new_parent,
                            ).push((target, new_name@))
                            &&& spec_name_of(final(fs), new_parent) == spec_name_of(
                                old(fs),
                                new_parent,
                            )
                            &&& match (old(fs).inode_view(new_parent), final(fs).inode_view(new_parent)) {
                                (Some(record), Some(stored)) => Self::framed(
                                    final(fs),
                                    old(fs),
                                    &RawByteFile::spec_load(final(fs), stored),
                                    &RawByteFile::spec_load(old(fs), record),
                                    new_parent,
                                ),
                                _ => false,
                            }
                        },
                        Err(e) => {
                            ||| e is Io
                            ||| e is OutOfMemory && final(fs).spec_free_block() is None
                            ||| e is OutOfBounds && encode_utf8(
                                spec_name_of(old(fs), new_parent),
                            ).len() + spec_listing_length(
                                spec_listing_of(old(fs), new_parent).push((target, new_name@)),
                            ) > u64::MAX
                        },
                    })
                },
                None => false,
            }),
    {
        let child = match self.get_child_inode(child) {
            Ok(child) => child,
            Err(e) => {
                return Err(e);
            },
        };
        if new_parent == self.inode.index {
            if new_name.as_bytes().len() > NAME_MAX {
                return Err(Error::OutOfBounds);
            }
            let at = match position_of(&self.children, child) {
                Some(at) => at,
                None => {
                    return Err(Error::NotFound);
                },
            };
            let ghost before = self.children@;
            self.children[at] = DirectoryChild { inode: child, name: new_name.to_owned() };
            self.modified = true;
            proof {
                assert forall|other: int| 0 <= other < self.children@.len() implies (
                #[trigger] self.children@[other]).wf() by {
                    if other != at {
                        assert(self.children@[other] == before[other]);
                    }
                }
                assert(spec_first_of(before, child, at as int));
                assert(spec_listing(self.children@) =~= spec_listing(before).update(
                    at as int,
                    (child, new_name@),
                ));
            }
            Ok(Done { value: (), write_back: Ok(()) })
        } else {
            let mut destination = match Directory::load(fs, new_parent) {
                Ok(directory) => directory,
                Err(e) => {
                    return Err(e);
                },
            };
            let ghost listed = destination.children@;
            proof {
                lemma_listed(listed, child, new_name@);
                old(fs).lemma_live_bounded();
                if old(fs).inode_live(new_parent) && spec_whole(old(fs), new_parent) {
                    assert(destination.inode.index == new_parent);
                }
            }
            if let Err(e) = destination.add_child(new_name, child) {
                return Err(e);
            }
            proof {
                assert(spec_listing(destination.children@) =~= spec_listing(listed).push(
                    (child, new_name@),
                ));
                lemma_listing_length(destination.children@);
            }
            let ghost loaded = *fs;
            let ghost held = destination.file;
            let write_back = destination.close(fs);
            proof {
                old(self).file.lemma_sound_anywhere(old(fs), fs);
                if write_back is Ok && old(fs).inode_live(new_parent) && spec_whole(
                    old(fs),
                    new_parent,
                ) {
                    let record = old(fs).inode_view(new_parent)->Some_0;
                    let described = RawByteFile::spec_load(old(fs), record);
                    assert forall|other: RawByteFile| #[trigger]
                        other.wf(old(fs)) && other.apart(&described, old(fs)) implies other.wf(
                        &loaded,
                    ) && other.contents(&loaded) == other.contents(old(fs)) && other.apart(
                        &held,
                        &loaded,
                    ) && other.fixed(&loaded, old(fs)) by {
                        other.lemma_apart_stable(&described, &held, old(fs), &loaded);
                    }
                }
            }
            self.children = without(&self.children, child);
            self.modified = true;
            Ok(Done { value: (), write_back })
        }
    }

    /// Removes a child, named by its name or its inode, from the filesystem
    /// and from the entries: a regular file with its blocks, a directory
    /// when it has no entries. `NotFound` when no entry has the name;
    /// `NullBlock` when the child is neither a regular file nor a
    /// directory. The directory counts as modified either way.
    pub fn remove_child<D: BlockDevice>(
        &mut self,
        fs: &mut Filesystem<D>,
        child: DirectoryChildIdentifier,
    ) -> (result: Result<(), Error>)
        requires
            old(fs).wf(),
            old(self).wf(old(fs)),
        ensures
            final(fs).wf(),
            RawByteFile::same_geometry(final(fs), old(fs)),
            final(self).wf(final(fs)),
            final(self).modified,
            final(self).inode == old(self).inode,
            final(self).file == old(self).file,
            final(self).name == old(self).name,
            final(self).removed == old(self).removed,
            result is Err ==> final(self).children@ == old(self).children@,
            final(fs).inodes_within(old(fs)),
            result is Ok ==> final(fs).superblock.inodes_free > old(fs).superblock.inodes_free,
            (child matches DirectoryChildIdentifier::Name(name) && spec_first_named(
                old(self).children@,
                name@,
                0,
            ) is None) ==> (result matches Err(e) && e is NotFound) && final(fs).unchanged_from(
                old(fs),
            ),
            match spec_identified(old(self).children@, child) {
                Some(target) => {
                    &&& !old(fs).inode_live(target) ==> (result matches Err(e) && e is OutOfBounds)
                    &&& old(fs).inode_live(target) ==> (match old(fs).inode_view(target) {
                        Some(record) => match result {
                            Ok(_) => {
                                &&& record.kind == FileType::RegularFile || (record.kind
                                    == FileType::Directory && (record.index == target
                                    ==> record.metadata[1] == 0))
                                &&& spec_listing(final(self).children@) == spec_without(
                                    spec_listing(old(self).children@),
                                    record.index,
                                )
                                &&& record.index == target ==> RawByteFile::removal(
                                    final(fs),
                                    old(fs),
                                    target,
                                    result,
                                )
                                &&& record.index == target ==> final(fs).inodes_but(
                                    old(fs),
                                    target,
                                    false,
                                )
                            },
                            Err(e) => record.index == target ==> spec_child_failure(
                                old(fs),
                                record,
                                e,
                            ),
                        },
                        None => result matches Err(e) && (e is Io || e is InsufficientBytes),
                    })
                },
                None => result matches Err(e) && e is NotFound,
            },
    {
        self.modified = true;
        proof {
            fs.lemma_inodes_fewer(old(fs));
        }
        let child = match self.get_child_inode(child) {
            Ok(child) => child,
            Err(e) => {
                return Err(e);
            },
        };
        let inode = match fs.load_inode(child) {
            Ok(inode) => inode,
            Err(e) => {
                proof {
                    fs.lemma_inodes_fewer(old(fs));
                }
                return Err(e);
            },
        };
        let ghost found = *fs;
        proof {
            found.lemma_inodes_fewer(old(fs));
        }
        match inode.kind {
            FileType::RegularFile => {
                let file = match RegularFile::load(fs, inode.index) {
                    Ok(file) => file,
                    Err(e) => {
                        proof {
                            fs.lemma_inodes_fewer(old(fs));
                            found.lemma_same_allocation(old(fs));
                            assert(found.inode_live(inode.index) == old(fs).inode_live(
                                inode.index,
                            ));
                            assert(found.inode_view(inode.index) == old(fs).inode_view(
                                inode.index,
                            ));
                        }
                        return Err(e);
                    },
                };
                let ghost loaded = *fs;
                proof {
                    let described = RawByteFile::spec_load(old(fs), inode);
                    if described.wf(old(fs)) {
                        described.lemma_wf_stable(old(fs), &loaded);
                    }
                }
                let removed = RawByteFile::remove(fs, file.inode.index);
                proof {
                    loaded.lemma_inodes_fewer(old(fs));
                    fs.lemma_inodes_within(&loaded, old(fs));
                    if inode.index == child {
                        RawByteFile::lemma_removal_stable(fs, &loaded, &found, child, removed);
                        RawByteFile::lemma_removal_stable(fs, &found, old(fs), child, removed);
                        if removed is Ok {
                            RawByteFile::lemma_inode_released_stable(fs, &loaded, &found, child);
                            RawByteFile::lemma_inode_released_stable(fs, &found, old(fs), child);
                        }
                    }
                }
                if let Err(e) = removed {
                    return Err(e);
                }
            },
            FileType::Directory => {
                proof {
                    let described = RawByteFile::spec_load(old(fs), inode);
                    if described.wf(old(fs)) {
                        described.lemma_wf_stable(old(fs), &found);
                    }
                }
                let directory = match Directory::load(fs, inode.index) {
                    Ok(directory) => directory,
                    Err(e) => {
                        proof {
                            fs.lemma_inodes_fewer(old(fs));
                            found.lemma_same_allocation(old(fs));
                            assert(found.inode_live(inode.index) == old(fs).inode_live(
                                inode.index,
                            ));
                            assert(found.inode_view(inode.index) == old(fs).inode_view(
                                inode.index,
                            ));
                            assert(RawByteFile::spec_load(&found, inode) == RawByteFile::spec_load(
                                old(fs),
                                inode,
                            ));
                        }
                        return Err(e);
                    },
                };
                let ghost loaded = *fs;
                proof {
                    let described = RawByteFile::spec_load(old(fs), inode);
                    if described.wf(old(fs)) {
                        described.lemma_wf_stable(old(fs), &loaded);
                    }
                }
                let removed = directory.remove_empty(fs);
                proof {
                    loaded.lemma_inodes_fewer(old(fs));
                    fs.lemma_inodes_within(&loaded, old(fs));
                    if inode.index == child && directory.children@.len() == 0 {
                        RawByteFile::lemma_removal_stable(fs, &loaded, &found, child, removed);
                        RawByteFile::lemma_removal_stable(fs, &found, old(fs), child, removed);
                        if removed is Ok {
                            RawByteFile::lemma_inode_released_stable(fs, &loaded, &found, child);
                            RawByteFile::lemma_inode_released_stable(fs, &found, old(fs), child);
                        }
                    }
                }
                if let Err(e) = removed {
                    return Err(e);
                }
            },
            _ => {
                return Err(Error::NullBlock);
            },
        }
        self.children = without(&self.children, inode.index);
        Ok(())
    }

    /// Writes the directory back when it was modified and not removed, as
    /// the end of its use does.
    pub fn close<D: BlockDevice>(self, fs: &mut Filesystem<D>) -> (result: Result<(), Error>)
        requires
            old(fs).wf(),
            self.wf(old(fs)),
        ensures
            final(fs).wf(),
            RawByteFile::same_geometry(final(fs), old(fs)),
            final(fs).same_inodes(old(fs)),
            final(fs).superblock.blocks_free <= old(fs).superblock.blocks_free,
            self.removed || !self.modified ==> result is Ok && *final(fs) == *old(fs),
            !self.removed && self.modified && self.file.wf(old(fs)) ==> (result matches Err(e)
                ==> {
                ||| e is Io
                ||| e is OutOfMemory && final(fs).spec_free_block() is None
                ||| e is OutOfBounds && (self.inode.index >= old(fs).superblock.inode_count
                    || spec_stream(self.name@, self.children@).len() > u64::MAX)
            }),
            !self.removed && self.modified && self.inode.index >= old(fs).superblock.inode_count
                ==> result is Err,
            !self.removed && self.modified && result is Ok ==> (
            match final(fs).inode_view(self.inode.index) {
                Some(stored) => {
                    &&& Self::kept(self.inode, stored)
                    &&& stored.metadata[1] == self.children@.len()
                    &&& stored.metadata[2] == encode_utf8(self.name@).len()
                    &&& self.file.wf(old(fs)) ==> {
                        let described = RawByteFile::spec_load(final(fs), stored);
                        &&& described.wf(final(fs))
                        &&& described.contents(final(fs)) == spec_stream(
                            self.name@,
                            self.children@,
                        )
                        &&& spec_whole(final(fs), self.inode.index)
                        &&& spec_listing_of(final(fs), self.inode.index) == spec_listing(
                            self.children@,
                        )
                        &&& spec_name_of(final(fs), self.inode.index) == self.name@
                        &&& Self::framed(final(fs), old(fs), &described, &self.file, self.inode.index)
                    }
                },
                None => false,
            }),
    {
        if self.removed || !self.modified {
            return Ok(());
        }
        let mut held = self;
        let flushed = held.flush(fs);
        proof {
            if flushed is Ok && self.file.wf(old(fs)) {
                let stored = fs.inode_view(self.inode.index)->Some_0;
                let described = RawByteFile::spec_load(fs, stored);
                assert forall|other: RawByteFile| #[trigger]
                    other.wf(old(fs)) && other.apart(&self.file, old(fs)) implies other.apart(
                    &described,
                    fs,
                ) by {
                    assert(other.apart(&held.file, fs));
                    assert forall|block: u64|
                        !(#[trigger] other.owns(fs, block) && described.owns(fs, block)) by {
                        assert(described.owns(fs, block) == held.file.owns(fs, block));
                    }
                }
                lemma_stream_describes(
                    RawByteFile::spec_load(fs, stored).contents(fs),
                    self.name@,
                    self.children@,
                );
            }
        }
        flushed
    }

    /// Removes the directory and everything below it, at most `depth`
    /// levels deep. `OutOfBounds` when the tree is deeper.
    pub fn remove_tree<D: BlockDevice>(self, fs: &mut Filesystem<D>, depth: u64) -> (result:
        Result<(), Error>)
        requires
            old(fs).wf(),
            self.wf(old(fs)),
        ensures
            final(fs).wf(),
            RawByteFile::same_geometry(final(fs), old(fs)),
            depth == 0 && self.children@.len() > 0 ==> (result matches Err(e) && e is OutOfBounds)
                && final(fs).unchanged_from(old(fs)),
            self.children@.len() == 0 ==> RawByteFile::removal(
                final(fs),
                old(fs),
                self.inode.index,
                result,
            ),
            self.children@.len() == 0 && result is Ok ==> RawByteFile::inode_released(
                final(fs),
                old(fs),
                self.inode.index,
            ),
            final(fs).inodes_within(old(fs)),
            result is Ok ==> final(fs).superblock.inodes_free > old(fs).superblock.inodes_free,
        decreases depth,
    {
        if depth == 0 && self.children.len() > 0 {
            return Err(Error::OutOfBounds);
        }
        proof {
            fs.lemma_inodes_fewer(old(fs));
        }
        let mut at: usize = 0;
        while at < self.children.len()
            invariant
                at <= self.children@.len(),
                fs.wf(),
                RawByteFile::same_geometry(fs, old(fs)),
                self.file.sound(fs),
                depth > 0 || self.children@.len() == 0,
                at == 0 ==> *fs == *old(fs),
                fs.inodes_within(old(fs)),
            decreases self.children@.len() - at,
        {
            let ghost before = *fs;
            let inode = match fs.load_inode(self.children[at].inode) {
                Ok(inode) => inode,
                Err(e) => {
                    proof {
                        fs.lemma_inodes_fewer(&before);
                        fs.lemma_inodes_within(&before, old(fs));
                    }
                    return Err(e);
                },
            };
            let ghost found = *fs;
            proof {
                found.lemma_inodes_fewer(&before);
                found.lemma_inodes_within(&before, old(fs));
            }
            match inode.kind {
                FileType::RegularFile => {
                    let file = match RegularFile::load(fs, inode.index) {
                        Ok(file) => file,
                        Err(e) => {
                            proof {
                                fs.lemma_inodes_fewer(&found);
                                fs.lemma_inodes_within(&found, old(fs));
                            }
                            return Err(e);
                        },
                    };
                    let ghost loaded = *fs;
                    let removed = RawByteFile::remove(fs, file.inode.index);
                    proof {
                        loaded.lemma_inodes_fewer(&found);
                        loaded.lemma_inodes_within(&found, old(fs));
                        fs.lemma_inodes_within(&loaded, old(fs));
                    }
                    if let Err(e) = removed {
                        return Err(e);
                    }
                },
                FileType::Directory => {
                    let directory = match Directory::load(fs, inode.index) {
                        Ok(directory) => directory,
                        Err(e) => {
                            proof {
                                fs.lemma_inodes_fewer(&found);
                                fs.lemma_inodes_within(&found, old(fs));
                            }
                            return Err(e);
                        },
                    };
                    let ghost loaded = *fs;
                    let removed = directory.remove_tree(fs, depth - 1);
                    proof {
                        loaded.lemma_inodes_fewer(&found);
                        loaded.lemma_inodes_within(&found, old(fs));
                        fs.lemma_inodes_within(&loaded, old(fs));
                    }
                    if let Err(e) = removed {
                        return Err(e);
                    }
                },
                _ => {
                    return Err(Error::NullBlock);
                },
            }
            at += 1;
        }
        let emptied = Directory {
            inode: self.inode,
            file: self.file,
            name: self.name,
            children: Vec::new(),
            modified: true,
            removed: self.removed,
        };
        let ghost cleared = *fs;
        let removed = emptied.remove_empty(fs);
        proof {
            fs.lemma_inodes_within(&cleared, old(fs));
        }
        removed
    }
}

impl Directory {
    /// Makes a directory under `parent`: the lowest free inode is
    /// allocated, the directory is entered in the parent, which is written
    /// back, and a record is made that the first flush stores. The root
    /// directory, whose parent would be itself, is entered nowhere.
    /// `OutOfMemory` when no inode is free. What became of writing the
    /// parent back is handed on; where it succeeded the parent lists the
    /// directory behind what it listed.
    pub fn new<D: BlockDevice>(fs: &mut Filesystem<D>, parent: u64, name: &str, mode: u32) -> (result:
        Result<Done<Self>, Error>)
        requires
            old(fs).wf(),
        ensures
            final(fs).wf(),
            result matches Ok(done) ==> done.value.wf(final(fs)),
            result matches Ok(done) ==> done.value.file.wf(final(fs)),
            RawByteFile::same_geometry(final(fs), old(fs)),
            old(fs).spec_free_inode() is None ==> (result matches Err(e) && e is OutOfMemory)
                && final(fs).unchanged_from(old(fs)),
            old(fs).spec_free_inode() is Some && old(fs).spec_free_inode() != Some(parent)
                && !old(fs).inode_live(parent) ==> (result matches Err(e) && (e is OutOfBounds
                || e is Io)),
            old(fs).spec_free_inode() is Some && old(fs).spec_free_inode() != Some(parent) && old(fs).inode_live(parent) ==> (match old(fs).inode_view(parent) {
                Some(record) => RawByteFile::spec_load(old(fs), record).wf(old(fs)) ==> (
                result matches Err(e) ==> {
                    ||| crate::filetypes::directory::spec_load_failure(old(fs), record, e)
                    ||| e is OutOfBounds && vstd::utf8::encode_utf8(name@).len() > 65535
                    ||| e is NameOrInodeDuplicate && spec_listing_of(old(fs), parent).contains(
                        (old(fs).spec_free_inode()->Some_0, name@),
                    )
                }),
                None => result matches Err(e) && (e is Io || e is InsufficientBytes),
            }),
            result matches Ok(done) ==> {
                &&& old(fs).spec_free_inode() == Some(done.value.inode.index)
                &&& final(fs).inodes_but(old(fs), done.value.inode.index, true)
                &&& done.value.inode.mode == mode % 0x1_0000
                &&& done.value.inode.kind == FileType::Directory
                &&& done.value.inode.size == 0
                &&& done.value.inode.uid == 0 && done.value.inode.gid == 0
                &&& done.value.inode.atime == done.value.inode.ctime && done.value.inode.ctime == done.value.inode.mtime
                &&& done.value.inode.dtime == u64::MAX
                &&& done.value.inode.block_count == 0
                &&& done.value.inode.metadata[0] == parent
                &&& done.value.inode.metadata[1] == 0
                &&& done.value.inode.metadata[2] == encode_utf8(name@).len()
                &&& done.value.inode.metadata[3] == NULL_BLOCK && done.value.inode.metadata[4] == NULL_BLOCK
                &&& done.value.inode.first_block == NULL_BLOCK && done.value.inode.last_block == NULL_BLOCK
                &&& done.value.file.block_count == 0 && done.value.file.size == 0
                &&& done.value.file.first_block == NULL_BLOCK && done.value.file.last_block == NULL_BLOCK
                &&& done.value.name@ == name@
                &&& done.value.children@.len() == 0
                &&& done.value.modified && !done.value.removed
            },
            result matches Ok(done) ==> (old(fs).inode_live(parent) && spec_whole(old(fs), parent) ==>
            match done.write_back {
                Ok(_) => {
                    &&& spec_whole(final(fs), parent)
                    &&& spec_listing_of(final(fs), parent) == spec_listing_of(old(fs), parent).push(
                        (done.value.inode.index, name@),
                    )
                    &&& spec_name_of(final(fs), parent) == spec_name_of(old(fs), parent)
                    &&& match (old(fs).inode_view(parent), final(fs).inode_view(parent)) {
                        (Some(record), Some(stored)) => Directory::framed(
                            final(fs),
                            old(fs),
                            &RawByteFile::spec_load(final(fs), stored),
                            &RawByteFile::spec_load(old(fs), record),
                            parent,
                        ),
                        _ => false,
                    }
                },
                Err(e) => {
                    ||| e is Io
                    ||| e is OutOfMemory && final(fs).spec_free_block() is None
                    ||| e is OutOfBounds && encode_utf8(spec_name_of(old(fs), parent)).len()
                        + spec_listing_length(
                        spec_listing_of(old(fs), parent).push((done.value.inode.index, name@)),
                    ) > u64::MAX
                },
            }),
    {
        let now = timestamp_now();
        proof {
            old(fs).lemma_free_index();
        }
        let inode = match fs.acquire_inode() {
            Ok(inode) => inode,
            Err(e) => {
                proof {
                    if old(fs).spec_free_inode() is Some {
                        assert(!(e is OutOfMemory));
                    }
                }
                return Err(e);
            },
        };
        let ghost acquired = *fs;
        let file = match RawByteFile::new(fs) {
            Ok(file) => file,
            Err(e) => {
                return Err(e);
            },
        };
        let mut write_back: Result<(), Error> = Ok(());
        if !(parent == ROOT_INODE && inode == ROOT_INODE) {
            proof {
                if let Some(record) = old(fs).inode_view(parent) {
                    let described = RawByteFile::spec_load(old(fs), record);
                    if described.wf(old(fs)) {
                        described.lemma_wf_seen(old(fs), &acquired);
                    }
                }
            }
            let mut above = match Directory::load(fs, parent) {
                Ok(directory) => directory,
                Err(e) => {
                    return Err(e);
                },
            };
            let ghost listed = above.children@;
            let ghost loaded = *fs;
            proof {
                old(fs).lemma_live_bounded();
                if old(fs).inode_live(parent) && spec_whole(old(fs), parent) {
                    let record = old(fs).inode_view(parent)->Some_0;
                    assert(acquired.inode_view(parent) == old(fs).inode_view(parent));
                    assert(RawByteFile::spec_load(&acquired, record) == RawByteFile::spec_load(
                        old(fs),
                        record,
                    ));
                    assert(spec_listing_of(&acquired, parent) == spec_listing_of(old(fs), parent));
                    assert(spec_name_of(&acquired, parent) == spec_name_of(old(fs), parent));
                    assert(above.inode.index == parent);
                }
            }
            if let Err(e) = above.add_child(name, inode) {
                proof {
                    lemma_listed(listed, inode, name@);
                }
                return Err(e);
            }
            proof {
                assert(spec_listing(above.children@) =~= spec_listing(listed).push((inode, name@)));
                lemma_listing_length(above.children@);
            }
            let ghost held = above.file;
            proof {
                if old(fs).inode_live(parent) && spec_whole(old(fs), parent) {
                    let record = old(fs).inode_view(parent)->Some_0;
                    let described = RawByteFile::spec_load(old(fs), record);
                    assert forall|other: RawByteFile| #[trigger]
                        other.wf(old(fs)) && other.apart(&described, old(fs)) implies other.wf(&loaded)
                        && other.contents(&loaded) == other.contents(old(fs)) && other.apart(
                        &held,
                        &loaded,
                    ) && other.fixed(&loaded, old(fs)) by {
                        other.lemma_apart_seen(&described, old(fs), &acquired);
                        other.lemma_apart_stable(&described, &held, &acquired, &loaded);
                        other.lemma_fixed_twice(&loaded, &acquired, old(fs));
                    }
                    assert forall|other: u64| #[trigger]
                        loaded.inode_view(other) == old(fs).inode_view(other) by {
                        assert(acquired.inode_view(other) == old(fs).inode_view(other));
                    }
                }
            }
            write_back = above.close(fs);
        }
        proof {
            fs.lemma_inodes_but(&acquired, old(fs), inode, true);
        }
        let file = RawByteFile { cursor: crate::filetypes::BlockCursor::new(fs, (8, 0)), ..file };
        proof {
            reveal(RawByteFile::linked);
        }
        Ok(Done { write_back, value:
            Self {
                inode: Inode {
                    index: inode,
                    mode: (mode % 0x1_0000) as u16,
                    kind: FileType::Directory,
                    size: 0,
                    uid: 0,
                    gid: 0,
                    atime: now,
                    ctime: now,
                    mtime: now,
                    dtime: u64::MAX,
                    block_count: 0,
                    metadata: [parent, 0, name.as_bytes().len() as u64, NULL_BLOCK, NULL_BLOCK],
                    first_block: file.first_block,
                    last_block: file.last_block,
                },
                file,
                name: name.to_owned(),
                children: Vec::new(),
                modified: true,
                removed: false,
            },
        })
    }

    /// Loads the directory of inode `index`: its record, its name and its
    /// entries, as many as the record counts.
    pub fn load<D: BlockDevice>(fs: &mut Filesystem<D>, index: u64) -> (result: Result<Self, Error>)
        requires
            old(fs).wf(),
        ensures
            final(fs).wf(),
            result matches Ok(loaded) ==> loaded.wf(final(fs)),
            final(fs).cached_from(old(fs)),
            final(fs).same_records(old(fs)),
            !old(fs).inode_live(index) ==> (result matches Err(e) && e is OutOfBounds),
            result matches Err(e) ==> e.load_failure(),
            result matches Ok(loaded) ==> {
                &&& old(fs).inode_live(index)
                &&& old(fs).inode_view(index) == Some(loaded.inode)
                &&& loaded.file.same_chain(&RawByteFile::spec_load(old(fs), loaded.inode))
                &&& loaded.children@.len() == loaded.inode.metadata[1]
                &&& !loaded.modified && !loaded.removed
            },
            old(fs).inode_live(index) ==> (match old(fs).inode_view(index) {
                Some(record) => RawByteFile::spec_load(old(fs), record).wf(old(fs)) ==> (
                result matches Err(e) ==> spec_load_failure(old(fs), record, e)),
                None => result matches Err(e) && (e is Io || e is InsufficientBytes),
            }),
            spec_loads(old(fs), index) ==> result is Ok,
            final(fs).keeps_cached(old(fs)),
            result matches Ok(loaded) ==> RawByteFile::spec_load(old(fs), loaded.inode).wf(
                old(fs),
            ) ==> {
                let contents = RawByteFile::spec_load(old(fs), loaded.inode).contents(old(fs));
                let first = loaded.inode.metadata[2] as int;
                &&& spec_stream_fits(contents, first, loaded.inode.metadata[1] as nat)
                &&& spec_listing(loaded.children@) == spec_listing_of(old(fs), index)
                &&& loaded.name@ == spec_name_of(old(fs), index)
                &&& loaded.file.wf(final(fs))
                &&& loaded.name@ == vstd::utf8::decode_utf8(contents.subrange(0, first))
                &&& forall|place: nat|
                    place < loaded.children@.len() ==> spec_entry_is(
                        contents,
                        first,
                        place,
                        #[trigger] loaded.children@[place as int],
                    )
            },
    {
        let inode = match fs.load_inode(index) {
            Ok(inode) => inode,
            Err(e) => {
                return Err(e);
            },
        };
        let children_count = inode.metadata[1];
        if inode.metadata[2] > usize::MAX as u64 {
            return Err(Error::OutOfBounds);
        }
        let name_len = inode.metadata[2] as usize;
        let ghost loaded_fs = *fs;
        let mut file = match RawByteFile::load(fs, inode) {
            Ok(file) => file,
            Err(e) => {
                return Err(e);
            },
        };
        let ghost described = RawByteFile::spec_load(old(fs), inode);
        let ghost intact = described.wf(old(fs));
        let ghost contents = described.contents(old(fs));
        proof {
            if intact {
                described.lemma_wf_stable(old(fs), &loaded_fs);
            }
        }
        let name = match read_string(&mut file, fs, name_len) {
            Ok(name) => name,
            Err(e) => {
                proof {
                    if intact {
                        lemma_entry_start_monotone(
                            contents,
                            name_len as int,
                            0,
                            children_count as nat,
                        );
                        assert(file.contents(&loaded_fs) =~= contents);
                    }
                }
                return Err(e);
            },
        };
        proof {
            if intact {
                described.lemma_wf_stable(old(fs), fs);
                file.lemma_same_contents(&described, fs);
            }
        }
        let mut children: Vec<DirectoryChild> = Vec::new();
        let mut read: u64 = 0;
        while read < children_count
            invariant
                read <= children_count,
                children@.len() == read,
                old(fs).wf(),
                fs.wf(),
                fs.cached_from(old(fs)),
                fs.same_records(old(fs)),
                fs.keeps_cached(old(fs)),
                file.sound(fs),
                file.same_chain(&RawByteFile::spec_load(old(fs), inode)),
                old(fs).inode_live(index),
                old(fs).inode_view(index) == Some(inode),
                children_count == inode.metadata[1],
                forall|at: int| 0 <= at < children@.len() ==> (#[trigger] children@[at]).wf(),
                described == RawByteFile::spec_load(old(fs), inode),
                intact == described.wf(old(fs)),
                contents == described.contents(old(fs)),
                name_len == inode.metadata[2],
                intact ==> {
                    &&& file.wf(fs)
                    &&& file.contents(fs) == contents
                    &&& file.cursor.offset() == spec_entry_start(
                        contents,
                        name_len as int,
                        read as nat,
                    )
                    &&& forall|place: nat|
                        place < children@.len() ==> spec_entry_is(
                            contents,
                            name_len as int,
                            place,
                            #[trigger] children@[place as int],
                        )
                },
            decreases children_count - read,
        {
            let ghost before = children@;
            let ghost read_fs = *fs;
            let ghost read_file = file;
            let child = match DirectoryChild::read(&mut file, fs) {
                Ok(child) => child,
                Err(e) => {
                    proof {
                        if intact {
                            described.lemma_cached_kept(old(fs), &read_fs);
                            if described.cached(&read_fs) {
                                assert forall|place: nat|
                                    place < read_file.block_count implies read_fs.cache.blocks@.contains_key(
                                    #[trigger] read_file.block_at(&read_fs, place),
                                ) by {
                                    assert(read_file.block_at(&read_fs, place)
                                        == described.block_at(&read_fs, place));
                                }
                            }
                            lemma_entry_start_monotone(
                                contents,
                                name_len as int,
                                (read + 1) as nat,
                                children_count as nat,
                            );
                            if e is Utf8 {
                                assert(!vstd::utf8::valid_utf8(
                                    spec_entry_text(contents, name_len as int, read as nat),
                                ));
                            }
                        }
                    }
                    return Err(e);
                },
            };
            children.push(child);
            proof {
                if intact {
                    described.lemma_wf_stable(old(fs), fs);
                    file.lemma_same_contents(&described, fs);
                    assert forall|place: nat| place < children@.len() implies spec_entry_is(
                        contents,
                        name_len as int,
                        place,
                        #[trigger] children@[place as int],
                    ) by {
                        if place < before.len() {
                            assert(children@[place as int] == before[place as int]);
                        }
                    }
                }
            }
            read += 1;
        }
        proof {
            if intact {
                assert(spec_listing(children@) =~= spec_stream_listing(
                    contents,
                    name_len as int,
                    children_count as nat,
                ));
            }
        }
        Ok(Self { inode, file, name, children, modified: false, removed: false })
    }

    /// Writes the directory back: the stream is rewritten from the start
    /// with the name and then every entry, and the record, with the blocks,
    /// the size, the count of entries, the length of the name and the time
    /// of modification, is stored in the filesystem.
    pub fn flush<D: BlockDevice>(&mut self, fs: &mut Filesystem<D>) -> (result: Result<(), Error>)
        requires
            old(fs).wf(),
            old(self).wf(old(fs)),
        ensures
            final(fs).wf(),
            final(self).wf(final(fs)),
            RawByteFile::same_geometry(final(fs), old(fs)),
            final(fs).same_inodes(old(fs)),
            final(fs).superblock.blocks_free <= old(fs).superblock.blocks_free,
            final(self).name == old(self).name,
            final(self).children == old(self).children,
            final(self).removed == old(self).removed,
            result is Ok ==> {
                &&& !final(self).modified
                &&& final(self).inode.index == old(self).inode.index
                &&& final(self).inode.first_block == final(self).file.first_block
                &&& final(self).inode.last_block == final(self).file.last_block
                &&& final(self).inode.block_count == final(self).file.block_count
                &&& final(self).inode.size == final(self).file.cursor.offset()
                &&& final(self).inode.metadata[1] == final(self).children@.len()
                &&& final(self).inode.metadata[2] == encode_utf8(final(self).name@).len()
                &&& final(fs).inode_view(final(self).inode.index) == Some(
                    final(self).inode,
                )
            },
            Self::kept(old(self).inode, final(self).inode),
            final(self).modified == (result is Err && old(self).modified),
            old(self).inode.index >= old(fs).superblock.inode_count ==> result is Err,
            old(self).file.wf(old(fs)) ==> (result matches Err(e) ==> {
                ||| e is Io
                ||| e is OutOfMemory && final(fs).spec_free_block() is None
                ||| e is OutOfBounds && (old(self).inode.index >= old(fs).superblock.inode_count
                    || spec_stream(old(self).name@, old(self).children@).len() > u64::MAX)
            }),
            result is Ok && old(self).file.wf(old(fs)) ==> Self::framed(
                final(fs),
                old(fs),
                &final(self).file,
                &old(self).file,
                old(self).inode.index,
            ),
            result is Ok && old(self).file.wf(old(fs)) ==> {
                let stream = spec_stream(final(self).name@, final(self).children@);
                let described = RawByteFile::spec_load(final(fs), final(self).inode);
                &&& final(self).file.wf(final(fs))
                &&& final(self).inode.size == stream.len()
                &&& final(self).file.contents(final(fs)).subrange(0, stream.len() as int)
                    == stream
                &&& described.wf(final(fs))
                &&& described.contents(final(fs)) == stream
            },
    {
        let ghost intact = self.file.wf(old(fs));
        let ghost before_reset = self.file;
        self.file.cursor.reset();
        proof {
            if intact {
                before_reset.lemma_seek_keeps_wf(old(fs), &self.file);
            }
        }
        let ghost reset = self.file;
        if let Err(e) = self.file.write(fs, self.name.as_str().as_bytes()) {
            proof {
                lemma_entries_whole(self.children@, 0);
            }
            return Err(e);
        }
        proof {
            if intact {
                let written = crate::filetypes::raw_file::spec_written(
                    reset.contents(old(fs)),
                    0,
                    encode_utf8(self.name@),
                );
                assert(written.subrange(0, encode_utf8(self.name@).len() as int)
                    =~= encode_utf8(self.name@));
                assert(self.children@.take(0) =~= Seq::<DirectoryChild>::empty());
                assert(encode_utf8(self.name@) + spec_entries(self.children@.take(0))
                    =~= encode_utf8(self.name@));
                assert(self.file.contents(fs).len() == self.file.size);
            }
        }
        let mut at: usize = 0;
        while at < self.children.len()
            invariant
                at <= self.children@.len(),
                fs.wf(),
                RawByteFile::same_geometry(fs, old(fs)),
                fs.same_inodes(old(fs)),
                fs.superblock.blocks_free <= old(fs).superblock.blocks_free,
                self.wf(fs),
                self.name == old(self).name,
                self.children == old(self).children,
                self.removed == old(self).removed,
                self.inode == old(self).inode,
                self.modified == old(self).modified,
                intact == (old(self).file.wf(old(fs))),
                intact ==> {
                    let stream = spec_stream(self.name@, self.children@.take(at as int));
                    &&& self.file.extends(fs, &reset, old(fs))
                    &&& fs.superblock.blocks_free + self.file.block_count == old(fs).superblock.blocks_free + reset.block_count
                    &&& self.file.wf(fs)
                    &&& self.file.cursor.offset() == stream.len()
                    &&& self.file.contents(fs).subrange(0, stream.len() as int) == stream
                },
            decreases self.children@.len() - at,
        {
            let bytes = self.children[at].as_bytes();
            let ghost before = self.file;
            let ghost before_fs = *fs;
            if let Err(e) = self.file.write(fs, bytes.as_slice()) {
                proof {
                    lemma_entries_take(self.children@, at as int);
                    lemma_entries_whole(self.children@, at + 1);
                }
                return Err(e);
            }
            proof {
                if intact {
                    let stream = spec_stream(self.name@, self.children@.take(at as int));
                    let longer = spec_stream(self.name@, self.children@.take(at + 1));
                    lemma_entries_take(self.children@, at as int);
                    assert(longer =~= stream + bytes@);
                    let contents = before.contents(&before_fs);
                    let written = crate::filetypes::raw_file::spec_written(
                        contents,
                        stream.len() as int,
                        bytes@,
                    );
                    assert(written.subrange(0, longer.len() as int) =~= contents.subrange(
                        0,
                        stream.len() as int,
                    ) + bytes@);
                    assert(self.file.contents(fs).len() == self.file.size);
                    self.file.lemma_extends_twice(fs, &before, &before_fs, &reset, old(fs));
                }
            }
            at += 1;
        }
        proof {
            assert(self.children@.take(at as int) =~= self.children@);
        }
        let ghost written_fs = *fs;
        self.file.update_inode(&mut self.inode);
        self.inode.mtime = timestamp_now();
        self.inode.block_count = self.file.block_count;
        self.inode.size = self.file.cursor.position();
        self.inode.metadata[1] = self.children.len() as u64;
        self.inode.metadata[2] = self.name.as_str().as_bytes().len() as u64;
        if let Err(e) = fs.flush_inode(&self.inode) {
            return Err(e);
        }
        self.modified = false;
        proof {
            if intact {
                self.file.lemma_wf_blocks_stable(&written_fs, fs);
                self.file.lemma_described(&written_fs, fs, self.inode);
                reveal(RawByteFile::extends);
                fs.lemma_same_allocation(&written_fs);
                assert forall|other: RawByteFile| #[trigger]
                    other.wf(old(fs)) && other.apart(&old(self).file, old(fs)) implies other.wf(
                    fs,
                ) && other.contents(fs) == other.contents(old(fs)) && other.apart(
                    &self.file,
                    fs,
                ) && other.fixed(fs, old(fs)) by {
                    assert(other.apart(&reset, old(fs)));
                    other.lemma_apart_kept(&self.file, &written_fs, &reset, old(fs));
                    other.lemma_apart_seen(&self.file, &written_fs, fs);
                    other.lemma_fixed_twice(fs, &written_fs, old(fs));
                }
            }
        }
        Ok(())
    }

    /// Removes the directory and everything below it. Nothing is written
    /// back.
    pub fn remove<D: BlockDevice>(self, fs: &mut Filesystem<D>) -> (result: Result<Done<()>, Error>)
        requires
            old(fs).wf(),
            self.wf(old(fs)),
        ensures
            final(fs).wf(),
            RawByteFile::same_geometry(final(fs), old(fs)),
            result matches Ok(done) ==> done.write_back is Ok,
            self.children@.len() == 0 ==> RawByteFile::removal(
                final(fs),
                old(fs),
                self.inode.index,
                crate::filetypes::spec_plain(result),
            ),
            self.children@.len() == 0 && result is Ok ==> RawByteFile::inode_released(
                final(fs),
                old(fs),
                self.inode.index,
            ),
            final(fs).inodes_within(old(fs)),
            result is Ok ==> final(fs).superblock.inodes_free > old(fs).superblock.inodes_free,
    {
        let depth = fs.superblock.inode_count;
        match self.remove_tree(fs, depth) {
            Ok(_) => Ok(Done { value: (), write_back: Ok(()) }),
            Err(e) => Err(e),
        }
    }
}

impl<D: BlockDevice> FileOperations<D> for Directory {
    open spec fn flushable(&self, fs: &Filesystem<D>) -> bool {
        self.wf(fs)
    }

    /// What [`Directory::new`] does, with its contract.
    fn new(fs: &mut Filesystem<D>, parent: u64, name: &str, mode: u32) -> (result: Result<
        Done<Self>,
        Error,
    >)
        ensures
            final(fs).wf(),
            result matches Ok(done) ==> done.value.wf(final(fs)),
            result matches Ok(done) ==> done.value.file.wf(final(fs)),
            RawByteFile::same_geometry(final(fs), old(fs)),
            old(fs).spec_free_inode() is None ==> (result matches Err(e) && e is OutOfMemory)
                && final(fs).unchanged_from(old(fs)),
            old(fs).spec_free_inode() is Some && old(fs).spec_free_inode() != Some(parent)
                && !old(fs).inode_live(parent) ==> (result matches Err(e) && (e is OutOfBounds
                || e is Io)),
            old(fs).spec_free_inode() is Some && old(fs).spec_free_inode() != Some(parent) && old(fs).inode_live(parent) ==> (match old(fs).inode_view(parent) {
                Some(record) => RawByteFile::spec_load(old(fs), record).wf(old(fs)) ==> (
                result matches Err(e) ==> {
                    ||| crate::filetypes::directory::spec_load_failure(old(fs), record, e)
                    ||| e is OutOfBounds && vstd::utf8::encode_utf8(name@).len() > 65535
                    ||| e is NameOrInodeDuplicate && spec_listing_of(old(fs), parent).contains(
                        (old(fs).spec_free_inode()->Some_0, name@),
                    )
                }),
                None => result matches Err(e) && (e is Io || e is InsufficientBytes),
            }),
            result matches Ok(done) ==> {
                &&& old(fs).spec_free_inode() == Some(done.value.inode.index)
                &&& final(fs).inodes_but(old(fs), done.value.inode.index, true)
                &&& done.value.inode.mode == mode % 0x1_0000
                &&& done.value.inode.kind == FileType::Directory
                &&& done.value.inode.size == 0
                &&& done.value.inode.uid == 0 && done.value.inode.gid == 0
                &&& done.value.inode.atime == done.value.inode.ctime && done.value.inode.ctime == done.value.inode.mtime
                &&& done.value.inode.dtime == u64::MAX
                &&& done.value.inode.block_count == 0
                &&& done.value.inode.metadata[0] == parent
                &&& done.value.inode.metadata[1] == 0
                &&& done.value.inode.metadata[2] == encode_utf8(name@).len()
                &&& done.value.inode.metadata[3] == NULL_BLOCK && done.value.inode.metadata[4] == NULL_BLOCK
                &&& done.value.inode.first_block == NULL_BLOCK && done.value.inode.last_block == NULL_BLOCK
                &&& done.value.file.block_count == 0 && done.value.file.size == 0
                &&& done.value.file.first_block == NULL_BLOCK && done.value.file.last_block == NULL_BLOCK
                &&& done.value.name@ == name@
                &&& done.value.children@.len() == 0
                &&& done.value.modified && !done.value.removed
            },
            result matches Ok(done) ==> (old(fs).inode_live(parent) && spec_whole(old(fs), parent) ==>
            match done.write_back {
                Ok(_) => {
                    &&& spec_whole(final(fs), parent)
                    &&& spec_listing_of(final(fs), parent) == spec_listing_of(old(fs), parent).push(
                        (done.value.inode.index, name@),
                    )
                    &&& spec_name_of(final(fs), parent) == spec_name_of(old(fs), parent)
                    &&& match (old(fs).inode_view(parent), final(fs).inode_view(parent)) {
                        (Some(record), Some(stored)) => Directory::framed(
                            final(fs),
                            old(fs),
                            &RawByteFile::spec_load(final(fs), stored),
                            &RawByteFile::spec_load(old(fs), record),
                            parent,
                        ),
                        _ => false,
                    }
                },
                Err(e) => {
                    ||| e is Io
                    ||| e is OutOfMemory && final(fs).spec_free_block() is None
                    ||| e is OutOfBounds && encode_utf8(spec_name_of(old(fs), parent)).len()
                        + spec_listing_length(
                        spec_listing_of(old(fs), parent).push((done.value.inode.index, name@)),
                    ) > u64::MAX
                },
            }),
    {
        Directory::new(fs, parent, name, mode)
    }

    /// What [`Directory::load`] does, with its contract.
    fn load(fs: &mut Filesystem<D>, index: u64) -> (result: Result<Self, Error>)
        ensures
            final(fs).wf(),
            result matches Ok(loaded) ==> loaded.wf(final(fs)),
            final(fs).cached_from(old(fs)),
            final(fs).same_records(old(fs)),
            !old(fs).inode_live(index) ==> (result matches Err(e) && e is OutOfBounds),
            result matches Err(e) ==> e.load_failure(),
            result matches Ok(loaded) ==> {
                &&& old(fs).inode_live(index)
                &&& old(fs).inode_view(index) == Some(loaded.inode)
                &&& loaded.file.same_chain(&RawByteFile::spec_load(old(fs), loaded.inode))
                &&& loaded.children@.len() == loaded.inode.metadata[1]
                &&& !loaded.modified && !loaded.removed
            },
            old(fs).inode_live(index) ==> (match old(fs).inode_view(index) {
                Some(record) => RawByteFile::spec_load(old(fs), record).wf(old(fs)) ==> (
                result matches Err(e) ==> spec_load_failure(old(fs), record, e)),
                None => result matches Err(e) && (e is Io || e is InsufficientBytes),
            }),
            spec_loads(old(fs), index) ==> result is Ok,
            final(fs).keeps_cached(old(fs)),
            result matches Ok(loaded) ==> RawByteFile::spec_load(old(fs), loaded.inode).wf(
                old(fs),
            ) ==> {
                let contents = RawByteFile::spec_load(old(fs), loaded.inode).contents(old(fs));
                let first = loaded.inode.metadata[2] as int;
                &&& spec_stream_fits(contents, first, loaded.inode.metadata[1] as nat)
                &&& spec_listing(loaded.children@) == spec_listing_of(old(fs), index)
                &&& loaded.name@ == spec_name_of(old(fs), index)
                &&& loaded.file.wf(final(fs))
                &&& loaded.name@ == vstd::utf8::decode_utf8(contents.subrange(0, first))
                &&& forall|place: nat|
                    place < loaded.children@.len() ==> spec_entry_is(
                        contents,
                        first,
                        place,
                        #[trigger] loaded.children@[place as int],
                    )
            },
    {
        Directory::load(fs, index)
    }

    /// What [`Directory::flush`] does, with its contract.
    fn flush(&mut self, fs: &mut Filesystem<D>) -> (result: Result<(), Error>)
        ensures
            final(fs).wf(),
            final(self).wf(final(fs)),
            RawByteFile::same_geometry(final(fs), old(fs)),
            final(fs).same_inodes(old(fs)),
            final(fs).superblock.blocks_free <= old(fs).superblock.blocks_free,
            final(self).name == old(self).name,
            final(self).children == old(self).children,
            final(self).removed == old(self).removed,
            result is Ok ==> {
                &&& !final(self).modified
                &&& final(self).inode.index == old(self).inode.index
                &&& final(self).inode.first_block == final(self).file.first_block
                &&& final(self).inode.last_block == final(self).file.last_block
                &&& final(self).inode.block_count == final(self).file.block_count
                &&& final(self).inode.size == final(self).file.cursor.offset()
                &&& final(self).inode.metadata[1] == final(self).children@.len()
                &&& final(self).inode.metadata[2] == encode_utf8(final(self).name@).len()
                &&& final(fs).inode_view(final(self).inode.index) == Some(
                    final(self).inode,
                )
            },
            Self::kept(old(self).inode, final(self).inode),
            final(self).modified == (result is Err && old(self).modified),
            old(self).inode.index >= old(fs).superblock.inode_count ==> result is Err,
            old(self).file.wf(old(fs)) ==> (result matches Err(e) ==> {
                ||| e is Io
                ||| e is OutOfMemory && final(fs).spec_free_block() is None
                ||| e is OutOfBounds && (old(self).inode.index >= old(fs).superblock.inode_count
                    || spec_stream(old(self).name@, old(self).children@).len() > u64::MAX)
            }),
            result is Ok && old(self).file.wf(old(fs)) ==> Self::framed(
                final(fs),
                old(fs),
                &final(self).file,
                &old(self).file,
                old(self).inode.index,
            ),
            result is Ok && old(self).file.wf(old(fs)) ==> {
                let stream = spec_stream(final(self).name@, final(self).children@);
                let described = RawByteFile::spec_load(final(fs), final(self).inode);
                &&& final(self).file.wf(final(fs))
                &&& final(self).inode.size == stream.len()
                &&& final(self).file.contents(final(fs)).subrange(0, stream.len() as int)
                    == stream
                &&& described.wf(final(fs))
                &&& described.contents(final(fs)) == stream
            },
    {
        Directory::flush(self, fs)
    }

    /// What [`Directory::remove`] does, with its contract.
    fn remove(self, fs: &mut Filesystem<D>) -> (result: Result<Done<()>, Error>)
        ensures
            final(fs).wf(),
            RawByteFile::same_geometry(final(fs), old(fs)),
            result matches Ok(done) ==> done.write_back is Ok,
            self.children@.len() == 0 ==> RawByteFile::removal(
                final(fs),
                old(fs),
                self.inode.index,
                crate::filetypes::spec_plain(result),
            ),
            self.children@.len() == 0 && result is Ok ==> RawByteFile::inode_released(
                final(fs),
                old(fs),
                self.inode.index,
            ),
            final(fs).inodes_within(old(fs)),
            result is Ok ==> final(fs).superblock.inodes_free > old(fs).superblock.inodes_free,
    {
        Directory::remove(self, fs)
    }
}

} // verus!
