//! Encoding of a directory's entries.

use vstd::prelude::*;
use vstd::slice::slice_subrange;
use vstd::string::StringSliceAdditionalSpecFns;
use vstd::utf8::{decode_utf8, encode_utf8, valid_utf8, encode_utf8_decode_utf8,
    encode_utf8_valid_utf8};
use crate::bytes::{lemma_codec_round_trip, spec_u16_from_be_bytes, spec_u16_to_be_bytes,
    spec_u64_from_be_bytes, spec_u64_to_be_bytes, u16_from_be_bytes, u16_to_be_bytes,
    u64_from_be_bytes, u64_to_be_bytes};
use crate::error::Error;
use crate::filesystem::Filesystem;
use crate::filesystem::device::BlockDevice;
use crate::filetypes::{DirectoryChild, RawByteFile};
use crate::filetypes::helpers::{read_sized_string, read_u64};

verus! {

/// Longest name, in bytes, that an entry can store.
pub const NAME_MAX: usize = 65535;

/// Decodes `bytes` as UTF-8.
///
/// Calls `std::str::from_utf8` and copies the text. The standard library
/// documents that the call fails exactly when the bytes are not valid UTF-8,
/// and that the text it returns is the bytes read as UTF-8.
#[verifier::external_body]
pub(crate) fn string_from_utf8(bytes: &[u8]) -> (result: Result<String, std::str::Utf8Error>)
    ensures
        result is Ok <==> valid_utf8(bytes@),
        result matches Ok(text) ==> text@ == decode_utf8(bytes@),
{
    match std::str::from_utf8(bytes) {
        Ok(text) => Ok(text.to_owned()),
        Err(e) => Err(e),
    }
}

impl DirectoryChild {
    /// The name fits the 16-bit length field of an entry.
    pub open spec fn wf(&self) -> bool {
        encode_utf8(self.name@).len() <= NAME_MAX
    }

    /// The entry as stored: the inode index in 8 big-endian bytes, the
    /// length of the name in 2 big-endian bytes, and the name in UTF-8.
    pub open spec fn spec_bytes(&self) -> Seq<u8> {
        spec_u64_to_be_bytes(self.inode) + spec_u16_to_be_bytes(
            encode_utf8(self.name@).len() as u16,
        ) + encode_utf8(self.name@)
    }

    /// The length of the name that the first ten bytes of an entry announce.
    pub open spec fn spec_name_length(bytes: Seq<u8>) -> int {
        spec_u16_from_be_bytes(bytes.subrange(8, 10)) as int
    }

    /// Whether `bytes` begin with a whole entry.
    pub open spec fn spec_complete(bytes: Seq<u8>) -> bool {
        bytes.len() >= 10 && bytes.len() >= 10 + Self::spec_name_length(bytes)
    }

    /// The bytes of the name of the entry that `bytes` begin with.
    pub open spec fn spec_name_bytes(bytes: Seq<u8>) -> Seq<u8> {
        bytes.subrange(10, 10 + Self::spec_name_length(bytes))
    }

    /// Reads the entry that `bytes` begin with. `InsufficientBytes` when
    /// `bytes` end before the entry does, `Utf8` when the name is not UTF-8.
    pub fn from_bytes(bytes: &[u8]) -> (result: Result<Self, Error>)
        ensures
            match result {
                Ok(child) => {
                    &&& Self::spec_complete(bytes@)
                    &&& valid_utf8(Self::spec_name_bytes(bytes@))
                    &&& child.inode == spec_u64_from_be_bytes(bytes@.subrange(0, 8))
                    &&& child.name@ == decode_utf8(Self::spec_name_bytes(bytes@))
                },
                Err(e) => if !Self::spec_complete(bytes@) {
                    e is InsufficientBytes
                } else {
                    e is Utf8 && !valid_utf8(Self::spec_name_bytes(bytes@))
                },
            },
    {
        if bytes.len() < 10 {
            return Err(Error::InsufficientBytes);
        }
        let inode = u64_from_be_bytes(slice_subrange(bytes, 0, 8));
        let name_length = u16_from_be_bytes(slice_subrange(bytes, 8, 10)) as usize;
        if bytes.len() - 10 < name_length {
            return Err(Error::InsufficientBytes);
        }
        match string_from_utf8(slice_subrange(bytes, 10, 10 + name_length)) {
            Ok(name) => Ok(Self { inode, name }),
            Err(e) => Err(Error::Utf8(e)),
        }
    }

    /// Serializes the entry.
    pub fn as_bytes(&self) -> (bytes: Vec<u8>)
        requires
            self.wf(),
        ensures
            bytes@ == self.spec_bytes(),
            bytes@.len() == 10 + encode_utf8(self.name@).len(),
    {
        let name = self.name.as_str().as_bytes();
        let mut bytes = u64_to_be_bytes(self.inode);
        bytes.extend_from_slice(u16_to_be_bytes(name.len() as u16).as_slice());
        bytes.extend_from_slice(name);
        bytes
    }

    /// Reads an entry from the cursor of `file` on.
    pub fn read<D: BlockDevice>(file: &mut RawByteFile, fs: &mut Filesystem<D>) -> (result: Result<
        Self,
        Error,
    >)
        requires
            old(fs).wf(),
            old(file).sound(old(fs)),
        ensures
            final(fs).cached_from(old(fs)),
            final(fs).same_records(old(fs)),
            final(fs).keeps_cached(old(fs)),
            final(file).same_chain(old(file)),
            final(file).sound(final(fs)),
            result matches Ok(child) ==> child.wf(),
            result matches Err(e) ==> e.load_failure(),
            old(file).wf(old(fs)) ==> (match result {
                Ok(child) => {
                    let start = old(file).cursor.offset();
                    let contents = old(file).contents(old(fs));
                    let length = Self::spec_name_length(contents.subrange(start, start + 10));
                    &&& final(file).wf(final(fs))
                    &&& child.wf()
                    &&& final(file).cursor.offset() == start + 10 + length
                    &&& child.inode == spec_u64_from_be_bytes(contents.subrange(start, start + 8))
                    &&& valid_utf8(contents.subrange(start + 10, start + 10 + length))
                    &&& child.name@ == decode_utf8(contents.subrange(start + 10, start + 10 + length))
                },
                Err(e) => {
                    let start = old(file).cursor.offset();
                    let contents = old(file).contents(old(fs));
                    let length = Self::spec_name_length(contents.subrange(start, start + 10));
                    ||| e is Io && !old(file).cached(old(fs))
                    ||| e is OutOfBounds && (start + 10 > contents.len() || start + 10 + length
                        > contents.len())
                    ||| e is Utf8 && start + 10 + length <= contents.len() && !valid_utf8(
                        contents.subrange(start + 10, start + 10 + length),
                    )
                },
            }),
    {
        let inode = match read_u64(file, fs) {
            Ok(inode) => inode,
            Err(e) => {
                return Err(e);
            },
        };
        let ghost middle = *file;
        let ghost middle_fs = *fs;
        proof {
            if old(file).wf(old(fs)) {
                old(file).lemma_wf_stable(old(fs), &middle_fs);
                middle.lemma_same_contents(old(file), &middle_fs);
                let start = old(file).cursor.offset();
                let contents = old(file).contents(old(fs));
                if start + 10 <= contents.len() {
                    assert(contents.subrange(start, start + 10).subrange(8, 10)
                        =~= contents.subrange(start + 8, start + 10));
                }
            }
        }
        let name = match read_sized_string(file, fs) {
            Ok(name) => name,
            Err(e) => {
                return Err(e);
            },
        };
        proof {
            if old(file).wf(old(fs)) {
                let start = old(file).cursor.offset();
                let contents = old(file).contents(old(fs));
                assert(contents.subrange(start, start + 10).subrange(8, 10)
                    =~= contents.subrange(start + 8, start + 10));
                let length = Self::spec_name_length(contents.subrange(start, start + 10));
                let text = contents.subrange(start + 10, start + 10 + length);
                vstd::utf8::decode_utf8_encode_utf8(text);
            }
        }
        Ok(Self { inode, name })
    }

    /// Writes the entry at the cursor of `file`.
    pub fn flush<D: BlockDevice>(&self, file: &mut RawByteFile, fs: &mut Filesystem<D>) -> (result:
        Result<(), Error>)
        requires
            old(fs).wf(),
            old(file).sound(old(fs)),
            self.wf(),
        ensures
            final(fs).wf(),
            RawByteFile::same_geometry(final(fs), old(fs)),
            final(fs).same_inodes(old(fs)),
            final(file).sound(final(fs)),
            old(file).wf(old(fs)) ==> (match result {
                Ok(_) => {
                    let start = old(file).cursor.offset();
                    &&& final(file).wf(final(fs))
                    &&& final(file).extends(final(fs), old(file), old(fs))
                    &&& final(file).cursor.offset() == start + self.spec_bytes().len()
                    &&& final(file).contents(final(fs)) == crate::filetypes::raw_file::spec_written(
                        old(file).contents(old(fs)),
                        start,
                        self.spec_bytes(),
                    )
                },
                Err(e) => {
                    ||| e is Io
                    ||| e is OutOfMemory && final(fs).spec_free_block() is None
                    ||| e is OutOfBounds && old(file).cursor.offset() + self.spec_bytes().len()
                        > u64::MAX
                },
            }),
    {
        let bytes = self.as_bytes();
        file.write(fs, bytes.as_slice())
    }

    /// A stored entry is read back as written.
    pub proof fn lemma_round_trip(&self)
        requires
            self.wf(),
        ensures
            Self::spec_complete(self.spec_bytes()),
            Self::spec_name_length(self.spec_bytes()) == encode_utf8(self.name@).len(),
            Self::spec_name_bytes(self.spec_bytes()) == encode_utf8(self.name@),
            valid_utf8(Self::spec_name_bytes(self.spec_bytes())),
            spec_u64_from_be_bytes(self.spec_bytes().subrange(0, 8)) == self.inode,
            decode_utf8(Self::spec_name_bytes(self.spec_bytes())) == self.name@,
            self.spec_bytes().len() == 10 + encode_utf8(self.name@).len(),
    {
        lemma_codec_round_trip();
        let bytes = self.spec_bytes();
        let name = encode_utf8(self.name@);
        assert(bytes.subrange(0, 8) =~= spec_u64_to_be_bytes(self.inode));
        assert(bytes.subrange(8, 10) =~= spec_u16_to_be_bytes(name.len() as u16));
        assert(bytes.subrange(10, 10 + name.len() as int) =~= name);
        encode_utf8_valid_utf8(self.name@);
        encode_utf8_decode_utf8(self.name@);
    }
}

} // verus!
