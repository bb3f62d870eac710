//! Texts that lay records out for inspection.

use vstd::prelude::*;
use vstd::string::StringExecFns;
use crate::structs::{AsBitmap, Bitmap, Block, FileType, Inode};

verus! {

/// The digit of `value`, which is below 16: lower-case beyond 9, or
/// upper-case where `upper` holds.
pub open spec fn spec_digit(value: int, upper: bool) -> char {
    if value == 0 {
        '0'
    } else if value == 1 {
        '1'
    } else if value == 2 {
        '2'
    } else if value == 3 {
        '3'
    } else if value == 4 {
        '4'
    } else if value == 5 {
        '5'
    } else if value == 6 {
        '6'
    } else if value == 7 {
        '7'
    } else if value == 8 {
        '8'
    } else if value == 9 {
        '9'
    } else if value == 10 {
        if upper { 'A' } else { 'a' }
    } else if value == 11 {
        if upper { 'B' } else { 'b' }
    } else if value == 12 {
        if upper { 'C' } else { 'c' }
    } else if value == 13 {
        if upper { 'D' } else { 'd' }
    } else if value == 14 {
        if upper { 'E' } else { 'e' }
    } else {
        if upper { 'F' } else { 'f' }
    }
}

/// The decimal digits of `value`, without leading zeros.
pub open spec fn spec_decimal(value: nat) -> Seq<char>
    decreases value,
{
    if value < 10 {
        seq![spec_digit(value as int, false)]
    } else {
        spec_decimal(value / 10).push(spec_digit((value % 10) as int, false))
    }
}

/// The lower-case hexadecimal digits of `value`, without leading zeros.
pub open spec fn spec_hexadecimal(value: nat) -> Seq<char>
    decreases value,
{
    if value < 16 {
        seq![spec_digit(value as int, false)]
    } else {
        spec_hexadecimal(value / 16).push(spec_digit((value % 16) as int, false))
    }
}

/// `text` behind as many spaces as bring it to `width` characters.
pub open spec fn spec_padded(text: Seq<char>, width: nat) -> Seq<char> {
    if text.len() >= width {
        text
    } else {
        Seq::new((width - text.len()) as nat, |at: int| ' ') + text
    }
}

/// The decimal digits of `value`.
///
/// Calls `u64::to_string`, which the standard library documents to give the
/// decimal digits without sign or leading zeros.
#[verifier::external_body]
fn decimal(value: u64) -> (text: String)
    ensures
        text@ == spec_decimal(value as nat),
{
    value.to_string()
}

/// The lower-case hexadecimal digits of `value`.
///
/// Formats with `{:x}`, which the standard library documents to give the
/// hexadecimal digits in lower case without prefix or leading zeros.
#[verifier::external_body]
fn hexadecimal(value: u64) -> (text: String)
    ensures
        text@ == spec_hexadecimal(value as nat),
{
    format!("{value:x}")
}

/// The decimal digits of `value` in a column of three characters.
///
/// Formats with `{:3}`, which the standard library documents to fill a
/// number with spaces on the left to the width.
#[verifier::external_body]
fn column(value: u64) -> (text: String)
    ensures
        text@ == spec_padded(spec_decimal(value as nat), 3),
{
    format!("{value:3}")
}

/// The two upper-case hexadecimal digits of `byte`.
///
/// Formats with `{:02X}`, which the standard library documents to give the
/// hexadecimal digits in upper case, filled with zeros to two.
#[verifier::external_body]
fn byte_digits(byte: u8) -> (text: String)
    ensures
        text@ == seq![spec_digit(byte as int / 16, true), spec_digit(byte as int % 16, true)],
{
    format!("{byte:02X}")
}

/// The character of an ASCII byte as a text.
///
/// Calls `char::from` and `char::to_string`.
#[verifier::external_body]
fn byte_character(byte: u8) -> (text: String)
    requires
        byte < 128,
    ensures
        text@ == seq![byte as char],
{
    char::from(byte).to_string()
}

/// Whether a byte is an ASCII letter or digit.
pub open spec fn spec_alphanumeric(byte: u8) -> bool {
    (0x30 <= byte <= 0x39) || (0x41 <= byte <= 0x5a) || (0x61 <= byte <= 0x7a)
}

impl FileType {
    /// The name of the kind.
    pub open spec fn spec_name(&self) -> Seq<char> {
        match self {
            FileType::NamedPipe => "NamedPipe"@,
            FileType::CharDevice => "CharDevice"@,
            FileType::BlockDevice => "BlockDevice"@,
            FileType::Directory => "Directory"@,
            FileType::RegularFile => "RegularFile"@,
            FileType::Symlink => "Symlink"@,
            FileType::Socket => "Socket"@,
        }
    }

    /// The name of the kind.
    pub fn name(&self) -> (text: &'static str)
        ensures
            text@ == self.spec_name(),
    {
        match self {
            FileType::NamedPipe => "NamedPipe",
            FileType::CharDevice => "CharDevice",
            FileType::BlockDevice => "BlockDevice",
            FileType::Directory => "Directory",
            FileType::RegularFile => "RegularFile",
            FileType::Symlink => "Symlink",
            FileType::Socket => "Socket",
        }
    }
}

impl Inode {
    /// The text that lays the record out, a field to a line.
    pub open spec fn spec_describe(&self) -> Seq<char> {
        "Inode {\n    index: "@ + spec_decimal(self.index as nat) + "\n    mode: "@
            + spec_decimal(self.mode as nat) + "\n    r#t"@ + self.kind.spec_name()
            + "\n    size: "@ + spec_decimal(self.size as nat) + "\n    uid: "@ + spec_decimal(self.uid as nat) + "\n    gid: "@ + spec_decimal(self.gid as nat) + "\n    atime: "@ + spec_decimal(self.atime as nat) + "\n    ctime: "@ + spec_decimal(self.ctime as nat) + "\n    mtime: "@
            + spec_decimal(self.mtime as nat) + "\n    dtime: "@ + spec_decimal(self.dtime as nat) + "\n    block_count: "@ + spec_decimal(self.block_count as nat)
            + "\n    metadata: [\n        "@ + spec_hexadecimal(self.metadata[0] as nat)
            + "\n        "@ + spec_hexadecimal(self.metadata[1] as nat) + "\n        "@
            + spec_hexadecimal(self.metadata[2] as nat) + "\n        "@ + spec_hexadecimal(self.metadata[3] as nat) + "\n        "@ + spec_hexadecimal(self.metadata[4] as nat)
            + "\n    ]\n    first_block: "@ + spec_decimal(self.first_block as nat) + "\n}"@
    }

    /// Lays the record out as text.
    pub fn describe(&self) -> (text: String)
        ensures
            text@ == self.spec_describe(),
    {
        let mut text = String::from_str("Inode {\n    index: ");
        text.append(decimal(self.index).as_str());
        text.append("\n    mode: ");
        text.append(decimal(self.mode as u64).as_str());
        text.append("\n    r#t");
        text.append(self.kind.name());
        text.append("\n    size: ");
        text.append(decimal(self.size).as_str());
        text.append("\n    uid: ");
        text.append(decimal(self.uid as u64).as_str());
        text.append("\n    gid: ");
        text.append(decimal(self.gid as u64).as_str());
        text.append("\n    atime: ");
        text.append(decimal(self.atime).as_str());
        text.append("\n    ctime: ");
        text.append(decimal(self.ctime).as_str());
        text.append("\n    mtime: ");
        text.append(decimal(self.mtime).as_str());
        text.append("\n    dtime: ");
        text.append(decimal(self.dtime).as_str());
        text.append("\n    block_count: ");
        text.append(decimal(self.block_count).as_str());
        text.append("\n    metadata: [\n        ");
        text.append(hexadecimal(self.metadata[0]).as_str());
        text.append("\n        ");
        text.append(hexadecimal(self.metadata[1]).as_str());
        text.append("\n        ");
        text.append(hexadecimal(self.metadata[2]).as_str());
        text.append("\n        ");
        text.append(hexadecimal(self.metadata[3]).as_str());
        text.append("\n        ");
        text.append(hexadecimal(self.metadata[4]).as_str());
        text.append("\n    ]\n    first_block: ");
        text.append(decimal(self.first_block).as_str());
        text.append("\n}");
        text
    }
}

impl<T: AsBitmap> Bitmap<T> {
    /// The lines that name the allocated indexes below `limit`.
    pub open spec fn spec_lines(&self, limit: nat) -> Seq<char>
        decreases limit,
    {
        if limit == 0 {
            Seq::empty()
        } else if self.bit(limit - 1) {
            self.spec_lines((limit - 1) as nat) + "        "@ + spec_decimal((limit - 1) as nat) + "\n"@
        } else {
            self.spec_lines((limit - 1) as nat)
        }
    }

    /// The text that lays the bitmap out: the count, the position, and the
    /// allocated indexes, one to a line.
    pub open spec fn spec_describe(&self) -> Seq<char> {
        "Bitmap {\n    count: "@ + spec_decimal(self.count as nat) + "\n    position: "@
            + spec_decimal(self.position as nat) + "\n    bitfield: [\n"@ + self.spec_lines(
            self.count as nat,
        ) + "    ]\n}"@
    }

    /// Lays the bitmap out as text.
    pub fn describe(&self) -> (text: String)
        requires
            self.wf(),
        ensures
            text@ == self.spec_describe(),
    {
        let mut text = String::from_str("Bitmap {\n    count: ");
        text.append(decimal(self.count).as_str());
        text.append("\n    position: ");
        text.append(decimal(self.position).as_str());
        text.append("\n    bitfield: [\n");
        let ghost head = text@;
        let mut index: u64 = 0;
        proof {
            assert(head + self.spec_lines(0) =~= head);
        }
        while index < self.count
            invariant
                self.wf(),
                index <= self.count,
                text@ == head + self.spec_lines(index as nat),
            decreases self.count - index,
        {
            let set = match self.get(index) {
                Ok(set) => set,
                Err(_) => false,
            };
            if set {
                let ghost before = text@;
                text.append("        ");
                text.append(decimal(index).as_str());
                text.append("\n");
                proof {
                    assert(text@ =~= head + self.spec_lines((index + 1) as nat));
                }
            }
            index += 1;
        }
        text.append("    ]\n}");
        proof {
            assert(text@ =~= self.spec_describe());
        }
        text
    }
}

impl Block {
    /// The mark of one byte in a dump: the character of a letter or digit,
    /// a middle dot for zero, else two hexadecimal digits.
    pub open spec fn spec_mark(byte: u8) -> Seq<char> {
        if spec_alphanumeric(byte) {
            "  "@ + seq![byte as char]
        } else if byte == 0 {
            "  \u{b7}"@
        } else {
            " "@ + seq![spec_digit(byte as int / 16, true), spec_digit(byte as int % 16, true)]
        }
    }

    /// The dump of the first `limit` bytes, sixteen to a line behind the
    /// offset of the first.
    pub open spec fn spec_dump(&self, limit: nat) -> Seq<char>
        decreases limit,
    {
        if limit == 0 {
            Seq::empty()
        } else {
            let at = (limit - 1) as nat;
            self.spec_dump(at) + (if at % 16 == 0 {
                "     "@ + spec_padded(spec_decimal(at), 3) + ":"@
            } else {
                Seq::empty()
            }) + Self::spec_mark(self.data@[at as int]) + (if at % 16 == 15 {
                "\n"@
            } else {
                Seq::empty()
            })
        }
    }

    /// The heads of the first `limit` columns of a dump.
    pub open spec fn spec_columns(limit: nat) -> Seq<char>
        decreases limit,
    {
        if limit == 0 {
            Seq::empty()
        } else {
            Self::spec_columns((limit - 1) as nat) + spec_padded(
                spec_decimal((limit - 1) as nat),
                3,
            )
        }
    }

    /// The text that lays the block out: the index and a dump of the bytes.
    pub open spec fn spec_describe(&self) -> Seq<char> {
        "Block {\n    index: "@ + spec_decimal(self.index as nat)
            + "\n    data: [\n         "@ + Self::spec_columns(16) + "\n"@ + self.spec_dump(
            self.data@.len(),
        ) + "    ]\n}"@
    }

    /// Lays the block out as text.
    pub fn describe(&self) -> (text: String)
        ensures
            text@ == self.spec_describe(),
    {
        let mut text = String::from_str("Block {\n    index: ");
        text.append(decimal(self.index).as_str());
        text.append("\n    data: [\n         ");
        let ghost top = text@;
        let mut at: u64 = 0;
        proof {
            assert(top + Self::spec_columns(0) =~= top);
        }
        while at < 16
            invariant
                at <= 16,
                text@ == top + Self::spec_columns(at as nat),
            decreases 16 - at,
        {
            text.append(column(at).as_str());
            proof {
                assert(text@ =~= top + Self::spec_columns((at + 1) as nat));
            }
            at += 1;
        }
        text.append("\n");
        let ghost head = text@;
        let mut place: usize = 0;
        proof {
            assert(head + self.spec_dump(0) =~= head);
        }
        while place < self.data.len()
            invariant
                place <= self.data@.len(),
                text@ == head + self.spec_dump(place as nat),
            decreases self.data@.len() - place,
        {
            let byte = self.data[place];
            if place % 16 == 0 {
                text.append("     ");
                text.append(column(place as u64).as_str());
                text.append(":");
            }
            if (0x30 <= byte && byte <= 0x39) || (0x41 <= byte && byte <= 0x5a) || (0x61 <= byte
                && byte <= 0x7a) {
                text.append("  ");
                text.append(byte_character(byte).as_str());
            } else if byte == 0 {
                text.append("  \u{b7}");
            } else {
                text.append(" ");
                text.append(byte_digits(byte).as_str());
            }
            if place % 16 == 15 {
                text.append("\n");
            }
            proof {
                assert(text@ =~= head + self.spec_dump((place + 1) as nat));
            }
            place += 1;
        }
        text.append("    ]\n}");
        proof {
            assert(text@ =~= self.spec_describe());
        }
        text
    }
}

} // verus!
