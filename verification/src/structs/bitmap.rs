//! Occupancy bitmaps over machine words.

use vstd::prelude::*;
use std::marker::PhantomData;
use crate::error::Error;
use crate::filesystem::device::{BlockDevice, overwritten};
use crate::structs::{AsBitmap, Bitmap, Block, Inode, Superblock};
use crate::math::{spec_next_power_of_two, next_power_of_two, lemma_next_power_of_two,
    lemma_next_power_of_two_bounded,
    lemma_next_power_of_two_monotone, lemma_power_of_two_multiple_of_eight};

verus! {

/// Smallest size of a bitmap in bytes.
pub const MINIMUM_SIZE: u64 = 1024;

/// Bits in a byte.
pub const BITS_IN_BYTE: u64 = 8;

/// Bytes in a word of the bit field.
pub const BYTES_IN_USIZE: u64 = usize::BITS as u64 / 8;

/// Bits in a word of the bit field.
pub const BITS_IN_USIZE: u64 = BYTES_IN_USIZE * BITS_IN_BYTE;

/// Largest number of indexes a bitmap is sized for.
pub const MAX_COUNT: u64 = 0x8000_0000_0000_0000;

/// Bytes that a bitmap over `count` indexes occupies: the next power of two
/// of `count` bits, and never less than `MINIMUM_SIZE`.
pub open spec fn spec_size_in_bytes(count: nat) -> nat {
    let length = spec_next_power_of_two(count) / 8;
    if length >= MINIMUM_SIZE {
        length
    } else {
        MINIMUM_SIZE as nat
    }
}

/// A bitmap's size is a multiple of 8 bytes, holds every index and grows with the count.
pub proof fn lemma_size_in_bytes(count: nat)
    ensures
        spec_size_in_bytes(count) >= MINIMUM_SIZE,
        spec_size_in_bytes(count) % 8 == 0,
        spec_size_in_bytes(count) * 8 >= count,
        count >= 1 ==> spec_size_in_bytes(count) <= 1024 + count / 4,
{
    lemma_next_power_of_two(count);
    let power = spec_next_power_of_two(count);
    if power / 8 >= MINIMUM_SIZE {
        lemma_power_of_two_multiple_of_eight(power);
        lemma_power_of_two_multiple_of_eight(power / 8);
    }
}

/// A larger count never needs a smaller bitmap.
pub proof fn lemma_size_in_bytes_monotone(smaller: nat, larger: nat)
    requires
        smaller <= larger,
    ensures
        spec_size_in_bytes(smaller) <= spec_size_in_bytes(larger),
{
    lemma_next_power_of_two_monotone(smaller, larger);
}

/// Computes `spec_size_in_bytes`.
pub fn size_in_bytes(count: u64) -> (length: u64)
    requires
        count <= MAX_COUNT,
    ensures
        length == spec_size_in_bytes(count as nat),
{
    let length = next_power_of_two(count) / BITS_IN_BYTE;
    if length >= MINIMUM_SIZE {
        length
    } else {
        MINIMUM_SIZE
    }
}

/// Whether bit `col` of a machine word is set.
pub open spec fn word_bit(word: usize, col: usize) -> bool {
    word & (1usize << col) != 0
}

/// Whether bit `col` of a byte is set.
pub open spec fn byte_bit(byte: u8, col: u8) -> bool {
    byte & (1u8 << col) != 0
}

/// Whether bit `index` is set in a buffer packed little-endian by byte.
pub open spec fn buffer_bit(buffer: Seq<u8>, index: int) -> bool {
    byte_bit(buffer[index / 8], (index % 8) as u8)
}

/// Number of bits below `limit` that are set in a buffer packed
/// little-endian by byte.
pub open spec fn spec_set_bits(buffer: Seq<u8>, limit: int) -> int
    decreases limit,
{
    if limit <= 0 {
        0
    } else {
        spec_set_bits(buffer, limit - 1) + if buffer_bit(buffer, limit - 1) {
            1int
        } else {
            0int
        }
    }
}

proof fn lemma_word_set(word: usize, col: usize, other: usize)
    by (bit_vector)
    requires
        col < usize::BITS,
        other < usize::BITS,
    ensures
        (word | (1usize << col)) & (1usize << col) != 0,
        (word & !(1usize << col)) & (1usize << col) == 0,
        other != col ==> ((word | (1usize << col)) & (1usize << other) != 0) == (word & (1usize
            << other) != 0),
        other != col ==> ((word & !(1usize << col)) & (1usize << other) != 0) == (word & (1usize
            << other) != 0),
{
}

proof fn lemma_word_full(word: usize, col: usize)
    by (bit_vector)
    requires
        col < usize::BITS,
    ensures
        word == !0usize ==> word & (1usize << col) != 0,
        word == 0 ==> word & (1usize << col) == 0,
        usize::BITS == 64 ==> !0usize == 0xffff_ffff_ffff_ffffu64,
        usize::BITS == 32 ==> !0usize == 0xffff_ffffu64,
{
}

proof fn lemma_byte_set(byte: u8, col: u8, other: u8)
    by (bit_vector)
    requires
        col < 8,
        other < 8,
    ensures
        (byte | (1u8 << col)) & (1u8 << col) != 0,
        other != col ==> ((byte | (1u8 << col)) & (1u8 << other) != 0) == (byte & (1u8 << other)
            != 0),
        0u8 & (1u8 << col) == 0,
{
}


/// Splits a bit index into the word that holds it and the bit within the word.
pub proof fn lemma_index_split(index: int, words: int)
    requires
        0 <= index,
    ensures
        0 <= index % (BITS_IN_USIZE as int) < BITS_IN_USIZE,
        0 <= index / (BITS_IN_USIZE as int),
        index < words * BITS_IN_USIZE ==> index / (BITS_IN_USIZE as int) < words,
        index >= words * BITS_IN_USIZE ==> index / (BITS_IN_USIZE as int) >= words,
        index == (index / (BITS_IN_USIZE as int)) * BITS_IN_USIZE + index % (
        BITS_IN_USIZE as int),
{
    let width = BITS_IN_USIZE as int;
    vstd::arithmetic::div_mod::lemma_fundamental_div_mod(index, width);
    let quotient = index / width;
    assert(quotient >= 0) by (nonlinear_arith)
        requires
            quotient == index / width,
            index >= 0,
            width > 0,
    ;
    assert(index < words * width ==> quotient < words) by (nonlinear_arith)
        requires
            index == width * quotient + index % width,
            0 <= index % width < width,
            width > 0,
    ;
    assert(index >= words * width ==> quotient >= words) by (nonlinear_arith)
        requires
            index == width * quotient + index % width,
            0 <= index % width < width,
            width > 0,
    ;
    assert(width * quotient == quotient * width) by (nonlinear_arith);
}

/// Bit `bit` of word `chunk` has index `chunk * BITS_IN_USIZE + bit`.
pub proof fn lemma_index_join(chunk: int, bit: int, words: int)
    requires
        0 <= chunk < words,
        0 <= bit < BITS_IN_USIZE,
    ensures
        (chunk * BITS_IN_USIZE + bit) / (BITS_IN_USIZE as int) == chunk,
        (chunk * BITS_IN_USIZE + bit) % (BITS_IN_USIZE as int) == bit,
        0 <= chunk * BITS_IN_USIZE + bit < words * BITS_IN_USIZE,
{
    let width = BITS_IN_USIZE as int;
    vstd::arithmetic::div_mod::lemma_fundamental_div_mod_converse(
        chunk * width + bit,
        width,
        chunk,
        bit,
    );
    assert(chunk * width + bit < words * width && chunk * width >= 0) by (nonlinear_arith)
        requires
            0 <= chunk < words,
            0 <= bit < width,
    ;
}

/// An index between the first bits of two adjacent words lies in the first of them.
pub proof fn lemma_index_within(index: int, chunk: int)
    requires
        0 <= chunk,
        chunk * BITS_IN_USIZE <= index < (chunk + 1) * BITS_IN_USIZE,
    ensures
        index / (BITS_IN_USIZE as int) == chunk,
{
    let width = BITS_IN_USIZE as int;
    let bit = index - chunk * width;
    assert((chunk + 1) * width == chunk * width + width) by (nonlinear_arith);
    vstd::arithmetic::div_mod::lemma_fundamental_div_mod_converse(index, width, chunk, bit);
}

proof fn lemma_byte_equal(left: u8, right: u8)
    by (bit_vector)
    requires
        (left & (1u8 << 0u8) != 0) == (right & (1u8 << 0u8) != 0),
        (left & (1u8 << 1u8) != 0) == (right & (1u8 << 1u8) != 0),
        (left & (1u8 << 2u8) != 0) == (right & (1u8 << 2u8) != 0),
        (left & (1u8 << 3u8) != 0) == (right & (1u8 << 3u8) != 0),
        (left & (1u8 << 4u8) != 0) == (right & (1u8 << 4u8) != 0),
        (left & (1u8 << 5u8) != 0) == (right & (1u8 << 5u8) != 0),
        (left & (1u8 << 6u8) != 0) == (right & (1u8 << 6u8) != 0),
        (left & (1u8 << 7u8) != 0) == (right & (1u8 << 7u8) != 0),
    ensures
        left == right,
{
}

/// Buffers of one length whose bits agree are equal.
pub proof fn lemma_buffers_equal(left: Seq<u8>, right: Seq<u8>)
    requires
        left.len() == right.len(),
        forall|index: int|
            0 <= index < 8 * left.len() ==> buffer_bit(left, index) == buffer_bit(right, index),
    ensures
        left == right,
{
    assert forall|at: int| 0 <= at < left.len() implies left[at] == right[at] by {
        assert(buffer_bit(left, 8 * at + 0) == buffer_bit(right, 8 * at + 0));
        assert(buffer_bit(left, 8 * at + 1) == buffer_bit(right, 8 * at + 1));
        assert(buffer_bit(left, 8 * at + 2) == buffer_bit(right, 8 * at + 2));
        assert(buffer_bit(left, 8 * at + 3) == buffer_bit(right, 8 * at + 3));
        assert(buffer_bit(left, 8 * at + 4) == buffer_bit(right, 8 * at + 4));
        assert(buffer_bit(left, 8 * at + 5) == buffer_bit(right, 8 * at + 5));
        assert(buffer_bit(left, 8 * at + 6) == buffer_bit(right, 8 * at + 6));
        assert(buffer_bit(left, 8 * at + 7) == buffer_bit(right, 8 * at + 7));
        lemma_byte_equal(left[at], right[at]);
    }
    assert(left =~= right);
}

impl<T: AsBitmap> Bitmap<T> {
    /// Number of bits that the bitfield holds.
    pub open spec fn capacity(&self) -> int {
        self.bitfield@.len() * BITS_IN_USIZE
    }

    /// Whether `index` is marked allocated.
    pub open spec fn bit(&self, index: int) -> bool {
        word_bit(
            self.bitfield@[index / (BITS_IN_USIZE as int)],
            (index % (BITS_IN_USIZE as int)) as usize,
        )
    }

    /// The bitfield has the size that the count calls for, and no bit at or
    /// beyond the count is set.
    pub open spec fn wf(&self) -> bool {
        &&& self.count <= MAX_COUNT
        &&& spec_size_in_bytes(self.count as nat) <= usize::MAX
        &&& self.bitfield@.len() * BYTES_IN_USIZE == spec_size_in_bytes(self.count as nat)
        &&& forall|index: int| self.count <= index < self.capacity() ==> !#[trigger] self.bit(index)
    }

    /// Number of indexes below `limit` that are marked allocated.
    pub open spec fn used_below(&self, limit: int) -> int
        decreases limit,
    {
        if limit <= 0 {
            0
        } else {
            self.used_below(limit - 1) + if self.bit(limit - 1) {
                1int
            } else {
                0int
            }
        }
    }

    /// Number of valid indexes that are marked allocated.
    pub open spec fn used(&self) -> int {
        self.used_below(self.count as int)
    }

    /// The lowest index at or after `after` that is free, if the bitfield holds one.
    pub open spec fn spec_next_free(&self, after: int) -> Option<int>
        decreases
                (if after < self.capacity() {
                    self.capacity() - after
                } else {
                    0
                }),
    {
        if after >= self.capacity() {
            None
        } else if !self.bit(after) {
            Some(after)
        } else {
            self.spec_next_free(after + 1)
        }
    }

    /// Every index is within the bitfield.
    pub proof fn lemma_capacity(&self)
        requires
            self.wf(),
        ensures
            self.count <= self.capacity(),
            self.capacity() == 8 * spec_size_in_bytes(self.count as nat),
            self.capacity() <= MAX_COUNT,
    {
        lemma_size_in_bytes(self.count as nat);
        lemma_next_power_of_two_bounded(self.count as nat);
        assert(self.bitfield@.len() * BITS_IN_USIZE == 8 * (self.bitfield@.len()
            * BYTES_IN_USIZE)) by (nonlinear_arith)
            requires
                BITS_IN_USIZE == 8 * BYTES_IN_USIZE,
        ;
    }

    /// Between zero and `limit` indexes below `limit` are allocated.
    pub proof fn lemma_used_bounds(&self, limit: int)
        requires
            0 <= limit,
        ensures
            0 <= self.used_below(limit) <= limit,
        decreases limit,
    {
        if limit > 0 {
            self.lemma_used_bounds(limit - 1);
        }
    }

    /// Bitmaps that agree below `limit` have the same number of allocated indexes there.
    pub proof fn lemma_used_agree(&self, other: &Self, limit: int)
        requires
            forall|index: int| 0 <= index < limit ==> self.bit(index) == other.bit(index),
        ensures
            self.used_below(limit) == other.used_below(limit),
        decreases limit,
    {
        if limit > 0 {
            self.lemma_used_agree(other, limit - 1);
        }
    }

    /// Changing one bit changes the number of allocated indexes by that bit.
    pub proof fn lemma_used_change(&self, other: &Self, changed: int, limit: int)
        requires
            0 <= changed < limit,
            forall|index: int|
                0 <= index < limit && index != changed ==> self.bit(index) == other.bit(index),
        ensures
            other.used_below(limit) - self.used_below(limit) == (if other.bit(changed) {
                1int
            } else {
                0int
            }) - (if self.bit(changed) {
                1int
            } else {
                0int
            }),
        decreases limit,
    {
        if changed == limit - 1 {
            self.lemma_used_agree(other, limit - 1);
        } else {
            self.lemma_used_change(other, changed, limit - 1);
        }
    }

    /// With no index allocated the count of allocated indexes is zero, and
    /// with a free index below `limit` it is less than `limit`.
    pub proof fn lemma_used_free(&self, free: int, limit: int)
        requires
            0 <= free < limit,
            !self.bit(free),
        ensures
            self.used_below(limit) < limit,
        decreases limit,
    {
        if free == limit - 1 {
            self.lemma_used_bounds(limit - 1);
        } else {
            self.lemma_used_free(free, limit - 1);
        }
    }

    /// With an allocated index below `limit` the count of allocated indexes
    /// is positive.
    pub proof fn lemma_used_positive(&self, taken: int, limit: int)
        requires
            0 <= taken < limit,
            self.bit(taken),
        ensures
            self.used_below(limit) > 0,
        decreases limit,
    {
        if taken == limit - 1 {
            self.lemma_used_bounds(limit - 1);
        } else {
            self.lemma_used_positive(taken, limit - 1);
        }
    }

    /// The indexes below `limit` that are marked allocated.
    pub open spec fn set_below(&self, limit: int) -> Set<int> {
        Set::new(|index: int| 0 <= index < limit && self.bit(index))
    }

    /// As many indexes are marked allocated as `used_below` counts.
    pub proof fn lemma_used_count(&self, limit: int)
        requires
            0 <= limit,
        ensures
            self.set_below(limit).finite(),
            self.set_below(limit).len() == self.used_below(limit),
        decreases limit,
    {
        if limit == 0 {
            assert(self.set_below(limit) =~= Set::empty());
        } else {
            self.lemma_used_count(limit - 1);
            if self.bit(limit - 1) {
                assert(self.set_below(limit) =~= self.set_below(limit - 1).insert(limit - 1));
            } else {
                assert(self.set_below(limit) =~= self.set_below(limit - 1));
            }
        }
    }

    /// Where every index below `limit` is allocated, as many are allocated.
    pub proof fn lemma_used_full(&self, limit: int)
        requires
            0 <= limit,
            forall|index: int| 0 <= index < limit ==> #[trigger] self.bit(index),
        ensures
            self.used_below(limit) == limit,
        decreases limit,
    {
        if limit > 0 {
            self.lemma_used_full(limit - 1);
        }
    }

    /// When no index below `limit` is allocated, the count is zero.
    pub proof fn lemma_used_none(&self, limit: int)
        requires
            forall|index: int| 0 <= index < limit ==> !self.bit(index),
        ensures
            self.used_below(limit) == 0,
        decreases limit,
    {
        if limit > 0 {
            self.lemma_used_none(limit - 1);
        }
    }

    /// Return empty bitmap with size as power of 2
    pub fn empty(count: u64, position: u64) -> (bitmap: Self)
        requires
            count <= MAX_COUNT,
            spec_size_in_bytes(count as nat) <= usize::MAX,
        ensures
            bitmap.wf(),
            bitmap.count == count,
            bitmap.position == position,
            forall|index: int| 0 <= index < bitmap.capacity() ==> !#[trigger] bitmap.bit(index),
            bitmap.used() == 0,
    {
        let bitmap = Self {
            bitfield: vec![0usize; Self::size_in_usize(count)],
            count,
            position,
            __type: PhantomData,
        };
        proof {
            assert forall|index: int| 0 <= index < bitmap.capacity() implies !#[trigger] bitmap.bit(
                index,
            ) by {
                lemma_index_split(index, bitmap.bitfield@.len() as int);
                lemma_word_full(0usize, (index % (BITS_IN_USIZE as int)) as usize);
            }
            bitmap.lemma_capacity();
            bitmap.lemma_used_none(count as int);
        }
        bitmap
    }

    /// Calculate appropriate size in [`usize`] for bitmap
    /// Minimum size is 1024 bytes, and grows as count's next power of 2
    pub fn size_in_usize(count: u64) -> (length: usize)
        requires
            count <= MAX_COUNT,
            spec_size_in_bytes(count as nat) <= usize::MAX,
        ensures
            length * BYTES_IN_USIZE == spec_size_in_bytes(count as nat),
    {
        proof {
            lemma_size_in_bytes(count as nat);
        }
        let bytes = size_in_bytes(count);
        assert(bytes % BYTES_IN_USIZE == 0 && (bytes / BYTES_IN_USIZE) * BYTES_IN_USIZE == bytes
            && bytes / BYTES_IN_USIZE <= bytes) by (nonlinear_arith)
            requires
                bytes % 8 == 0,
                BYTES_IN_USIZE == 8 || BYTES_IN_USIZE == 4,
        ;
        (bytes / BYTES_IN_USIZE) as usize
    }

    /// Calculate appropriate size in [`u8`] for bitmap
    pub fn size_in_bytes(count: u64) -> (length: u64)
        requires
            count <= MAX_COUNT,
        ensures
            length == spec_size_in_bytes(count as nat),
    {
        size_in_bytes(count)
    }

    /// Modify occupancy: marks `index` allocated or free and leaves every
    /// other index as it was. `OutOfBounds` when `index` is not below the count.
    pub fn set(&mut self, index: u64, value: bool) -> (result: Result<(), Error>)
        requires
            old(self).wf(),
        ensures
            final(self).wf(),
            final(self).count == old(self).count,
            final(self).position == old(self).position,
            final(self).bitfield@.len() == old(self).bitfield@.len(),
            match result {
                Ok(_) => {
                    &&& index < old(self).count
                    &&& final(self).bit(index as int) == value
                    &&& forall|other: int|
                        0 <= other < old(self).capacity() && other != index ==> final(self).bit(
                            other,
                        ) == old(self).bit(other)
                },
                Err(e) => {
                    &&& e is OutOfBounds
                    &&& index >= old(self).count
                    &&& final(self).bitfield@ == old(self).bitfield@
                },
            },
    {
        if index >= self.count {
            return Err(Error::OutOfBounds);
        }
        proof {
            self.lemma_capacity();
            lemma_index_split(index as int, self.bitfield@.len() as int);
        }
        let words = self.bitfield.len();
        assert(index / BITS_IN_USIZE < words);
        let row = (index / BITS_IN_USIZE) as usize;
        let col = (index % BITS_IN_USIZE) as usize;
        let word = self.bitfield[row];
        let updated = if value {
            word | (1usize << col)
        } else {
            word & !(1usize << col)
        };
        self.bitfield[row] = updated;
        proof {
            lemma_word_set(word, col, col);
            assert forall|other: int|
                0 <= other < old(self).capacity() && other != index implies self.bit(other)
                == old(self).bit(other) by {
                lemma_index_split(other, self.bitfield@.len() as int);
                let other_col = (other % (BITS_IN_USIZE as int)) as usize;
                if other / (BITS_IN_USIZE as int) == row {
                    lemma_word_set(word, col, other_col);
                }
            }
        }
        Ok(())
    }

    /// Get occupancy of `index`; `OutOfBounds` when `index` is not below the count.
    pub fn get(&self, index: u64) -> (result: Result<bool, Error>)
        requires
            self.wf(),
        ensures
            match result {
                Ok(value) => index < self.count && value == self.bit(index as int),
                Err(e) => e is OutOfBounds && index >= self.count,
            },
    {
        if index >= self.count {
            return Err(Error::OutOfBounds);
        }
        proof {
            self.lemma_capacity();
            lemma_index_split(index as int, self.bitfield@.len() as int);
        }
        let words = self.bitfield.len();
        assert(index / BITS_IN_USIZE < words);
        let row = (index / BITS_IN_USIZE) as usize;
        let col = (index % BITS_IN_USIZE) as usize;
        let mask = 1usize << col;
        Ok((self.bitfield[row] & mask) != 0)
    }

    /// Get index of first empty field starting at `after`: the lowest free
    /// index at or after `after` in the whole bitfield, which may lie at or
    /// beyond the count.
    pub fn next_free(&self, after: u64) -> (result: Option<u64>)
        requires
            self.bitfield@.len() * BITS_IN_USIZE <= u64::MAX,
        ensures
            match result {
                Some(index) => {
                    &&& after <= index < self.capacity()
                    &&& !self.bit(index as int)
                    &&& forall|lower: int| after <= lower < index ==> #[trigger] self.bit(lower)
                },
                None => forall|index: int|
                    after <= index < self.capacity() ==> #[trigger] self.bit(index),
            },
            result matches Some(index) ==> self.spec_next_free(after as int) == Some(index as int),
            result is None ==> self.spec_next_free(after as int) is None,
    {
        let after_chunk = after / BITS_IN_USIZE;
        let mut first_bit = after % BITS_IN_USIZE;
        proof {
            lemma_index_split(after as int, self.bitfield@.len() as int);
        }
        if after_chunk >= self.bitfield.len() as u64 {
            return None;
        }
        let mut chunk = after_chunk as usize;
        while chunk < self.bitfield.len()
            invariant
                self.bitfield@.len() * BITS_IN_USIZE <= u64::MAX,
                after <= chunk * BITS_IN_USIZE + first_bit,
                after_chunk <= chunk <= self.bitfield@.len(),
                first_bit < BITS_IN_USIZE,
                chunk > after_chunk ==> first_bit == 0,
                chunk == after_chunk ==> first_bit == after % BITS_IN_USIZE,
                after_chunk == after / BITS_IN_USIZE,
                forall|lower: int|
                    after <= lower < chunk * BITS_IN_USIZE + first_bit ==> #[trigger] self.bit(
                        lower,
                    ),
            decreases self.bitfield@.len() - chunk,
        {
            let word = self.bitfield[chunk];
            if word != usize::MAX {
                let mut bit = first_bit;
                while bit < BITS_IN_USIZE
                    invariant
                        self.bitfield@.len() * BITS_IN_USIZE <= u64::MAX,
                        chunk < self.bitfield@.len(),
                        word == self.bitfield@[chunk as int],
                        first_bit <= bit <= BITS_IN_USIZE,
                        after <= chunk * BITS_IN_USIZE + bit,
                        forall|lower: int|
                            after <= lower < chunk * BITS_IN_USIZE + bit ==> #[trigger] self.bit(
                                lower,
                            ),
                    decreases BITS_IN_USIZE - bit,
                {
                    proof {
                        lemma_index_join(chunk as int, bit as int, self.bitfield@.len() as int);
                    }
                    if word & (1usize << (bit as usize)) == 0 {
                        let index = chunk as u64 * BITS_IN_USIZE + bit;
                        proof {
                            self.lemma_next_free_is(after as int, index as int);
                        }
                        return Some(index);
                    }
                    bit += 1;
                }
            } else {
                proof {
                    assert forall|lower: int|
                        after <= lower < (chunk + 1) * BITS_IN_USIZE implies #[trigger] self.bit(
                        lower,
                    ) by {
                        if lower >= chunk * BITS_IN_USIZE + first_bit {
                            lemma_index_split(lower, self.bitfield@.len() as int);
                            lemma_index_within(lower, chunk as int);
                            lemma_word_full(word, (lower % (BITS_IN_USIZE as int)) as usize);
                        }
                    }
                }
            }
            proof {
                assert((chunk + 1) * BITS_IN_USIZE == chunk * BITS_IN_USIZE + BITS_IN_USIZE)
                    by (nonlinear_arith);
            }
            first_bit = 0;
            chunk += 1;
        }
        proof {
            self.lemma_next_free(after as int);
        }
        None
    }

    /// The next free index is free with only allocated indexes between
    /// `after` and it; when there is none, every index from `after` on is allocated.
    pub proof fn lemma_next_free(&self, after: int)
        ensures
            match self.spec_next_free(after) {
                Some(index) => after <= index < self.capacity() && !self.bit(index)
                    && forall|lower: int| after <= lower < index ==> #[trigger] self.bit(lower),
                None => forall|index: int|
                    after <= index < self.capacity() ==> #[trigger] self.bit(index),
            },
        decreases
                (if after < self.capacity() {
                    self.capacity() - after
                } else {
                    0
                }),
    {
        if after < self.capacity() && self.bit(after) {
            self.lemma_next_free(after + 1);
        }
    }

    /// A free index with only allocated indexes between `after` and it is the next free one.
    pub proof fn lemma_next_free_is(&self, after: int, index: int)
        requires
            after <= index < self.capacity(),
            !self.bit(index),
            forall|lower: int| after <= lower < index ==> #[trigger] self.bit(lower),
        ensures
            self.spec_next_free(after) == Some(index),
        decreases index - after,
    {
        if after < index {
            assert(self.bit(after));
            self.lemma_next_free_is(after + 1, index);
        }
    }

    /// Bitmaps with the same bits have the same next free index.
    pub proof fn lemma_next_free_agree(&self, other: &Self, after: int)
        requires
            self.bitfield@ == other.bitfield@,
        ensures
            self.spec_next_free(after) == other.spec_next_free(after),
        decreases
                (if after < self.capacity() {
                    self.capacity() - after
                } else {
                    0
                }),
    {
        if after < self.capacity() && self.bit(after) {
            self.lemma_next_free_agree(other, after + 1);
        }
    }

    /// Counts the allocated indexes.
    pub fn count_used(&self) -> (used: u64)
        requires
            self.wf(),
        ensures
            used == self.used(),
    {
        let mut used: u64 = 0;
        let mut index: u64 = 0;
        while index < self.count
            invariant
                self.wf(),
                index <= self.count,
                used == self.used_below(index as int),
                used <= index,
            decreases self.count - index,
        {
            let occupied = self.get(index);
            if let Ok(true) = occupied {
                used += 1;
            }
            index += 1;
        }
        used
    }

    /// Whether `buffer` stores this bitmap: it has the bitmap's size in bytes,
    /// bit `index % 8` of byte `index / 8` is bit `index` of the bitmap, and
    /// the bits at or beyond the count are clear.
    pub open spec fn encodes(&self, buffer: Seq<u8>) -> bool {
        &&& buffer.len() == spec_size_in_bytes(self.count as nat)
        &&& forall|index: int|
            0 <= index < 8 * buffer.len() ==> #[trigger] buffer_bit(buffer, index) == (index
                < self.count && self.bit(index))
    }

    /// The bytes that store this bitmap on disk.
    pub open spec fn spec_content(&self) -> Seq<u8> {
        choose|buffer: Seq<u8>| self.encodes(buffer)
    }

    /// Only one buffer stores a bitmap.
    pub proof fn lemma_content_unique(&self, buffer: Seq<u8>)
        requires
            self.encodes(buffer),
        ensures
            self.spec_content() == buffer,
    {
        let chosen = self.spec_content();
        assert(self.encodes(chosen));
        assert forall|index: int| 0 <= index < 8 * chosen.len() implies buffer_bit(chosen, index)
            == buffer_bit(buffer, index) by {
            assert(buffer_bit(chosen, index) == (index < self.count && self.bit(index)));
            assert(buffer_bit(buffer, index) == (index < self.count && self.bit(index)));
        }
        lemma_buffers_equal(chosen, buffer);
    }

    /// Whether `self` is `before` with every bit that is set in `buffer` marked allocated.
    pub open spec fn loaded_from(&self, before: &Self, buffer: Seq<u8>) -> bool {
        &&& self.count == before.count
        &&& self.position == before.position
        &&& self.bitfield@.len() == before.bitfield@.len()
        &&& forall|index: int|
            0 <= index < self.count ==> #[trigger] self.bit(index) == (before.bit(index)
                || buffer_bit(buffer, index))
        &&& forall|index: int|
            self.count <= index < self.capacity() ==> #[trigger] self.bit(index) == before.bit(
                index,
            )
    }

    /// The stored bytes of a bitmap have as many bits set as the bitmap has
    /// allocated indexes.
    pub proof fn lemma_stored_bits(&self, limit: int)
        requires
            self.wf(),
            0 <= limit <= self.count,
        ensures
            spec_set_bits(self.spec_content(), limit) == self.used_below(limit),
        decreases limit,
    {
        self.lemma_content_exists();
        self.lemma_capacity();
        if limit > 0 {
            self.lemma_stored_bits(limit - 1);
            assert(buffer_bit(self.spec_content(), limit - 1) == (limit - 1 < self.count
                && self.bit(limit - 1)));
        }
    }

    /// A bitmap that was loaded into an empty one has as many allocated
    /// indexes as its stored bytes have bits set.
    pub proof fn lemma_loaded_bits(&self, fresh: &Self, buffer: Seq<u8>, limit: int)
        requires
            self.loaded_from(fresh, buffer),
            0 <= limit <= self.count,
            forall|index: int| 0 <= index < fresh.count ==> !#[trigger] fresh.bit(index),
        ensures
            self.used_below(limit) == spec_set_bits(buffer, limit),
        decreases limit,
    {
        if limit > 0 {
            self.lemma_loaded_bits(fresh, buffer, limit - 1);
            assert(self.bit(limit - 1) == (fresh.bit(limit - 1) || buffer_bit(buffer, limit - 1)));
        }
    }

    /// Load bitmap from block device: reads the bitmap's bytes at its
    /// position and marks every index whose bit is set there.
    pub fn load<D: BlockDevice>(&mut self, block_device: &mut D) -> (result: Result<(), Error>)
        requires
            old(self).wf(),
        ensures
            final(self).wf(),
            final(block_device).contents() == old(block_device).contents(),
            final(self).count == old(self).count,
            final(self).position == old(self).position,
            match result {
                Ok(_) => {
                    let size = spec_size_in_bytes(old(self).count as nat);
                    &&& old(self).position + size <= old(block_device).contents().len()
                    &&& final(self).loaded_from(
                        old(self),
                        old(block_device).contents().subrange(
                            old(self).position as int,
                            old(self).position + size,
                        ),
                    )
                },
                Err(e) => e is Io && final(self).bitfield@ == old(self).bitfield@,
            },
    {
        let size = Self::size_in_bytes(self.count) as usize;
        match block_device.read_exact_at(self.position, size) {
            Ok(buffer) => {
                let loaded = self.load_content(buffer.as_slice());
                assert(loaded is Ok);
                Ok(())
            },
            Err(e) => Err(Error::Io(e)),
        }
    }

    /// Flush bitmap to block device: writes the bitmap's bytes at its position.
    pub fn flush<D: BlockDevice>(&self, block_device: &mut D) -> (result: Result<(), Error>)
        requires
            self.wf(),
        ensures
            final(block_device).contents().len() == old(block_device).contents().len(),
            forall|at: int|
                0 <= at < old(block_device).contents().len() && !(self.position <= at
                    < self.position + spec_size_in_bytes(self.count as nat))
                    ==> final(block_device).contents()[at] == old(block_device).contents()[at],
            match result {
                Ok(_) => self.position + spec_size_in_bytes(self.count as nat) <= old(block_device).contents().len() && final(block_device).contents() == overwritten(
                    old(block_device).contents(),
                    self.position as int,
                    self.spec_content(),
                ),
                Err(e) => e is Io,
            },
    {
        let buffer = self.flush_content();
        match block_device.write_all_at(self.position, buffer.as_slice()) {
            Ok(_) => Ok(()),
            Err(e) => Err(Error::Io(e)),
        }
    }

    /// Load bitfield from its stored bytes: marks every index below the count
    /// whose bit is set in `buffer`. `InsufficientBytes` when `buffer` is
    /// shorter than the bitmap.
    pub fn load_content(&mut self, buffer: &[u8]) -> (result: Result<(), Error>)
        requires
            old(self).wf(),
        ensures
            final(self).wf(),
            match result {
                Ok(_) => {
                    &&& buffer@.len() >= spec_size_in_bytes(old(self).count as nat)
                    &&& final(self).loaded_from(old(self), buffer@)
                },
                Err(e) => {
                    &&& e is InsufficientBytes
                    &&& buffer@.len() < spec_size_in_bytes(old(self).count as nat)
                    &&& *final(self) == *old(self)
                },
            },
    {
        let buffer_size = Self::size_in_bytes(self.count);
        if (buffer.len() as u64) < buffer_size {
            return Err(Error::InsufficientBytes);
        }
        proof {
            self.lemma_capacity();
        }
        let mut index: u64 = 0;
        while index < self.count
            invariant
                self.wf(),
                index <= self.count,
                self.count == old(self).count,
                self.position == old(self).position,
                self.bitfield@.len() == old(self).bitfield@.len(),
                self.count <= 8 * buffer@.len(),
                self.count <= self.capacity(),
                forall|other: int|
                    0 <= other < self.count ==> #[trigger] self.bit(other) == (old(self).bit(other)
                        || (other < index && buffer_bit(buffer@, other))),
                forall|other: int|
                    self.count <= other < self.capacity() ==> #[trigger] self.bit(other) == old(self).bit(other),
            decreases self.count - index,
        {
            let row = (index / BITS_IN_BYTE) as usize;
            let col = (index % BITS_IN_BYTE) as u8;
            let chunk = buffer[row];
            if chunk & (1u8 << col) != 0 {
                let marked = self.set(index, true);
                assert(marked is Ok);
            }
            index += 1;
        }
        Ok(())
    }

    /// Flush bitfield to its stored bytes.
    pub fn flush_content(&self) -> (buffer: Vec<u8>)
        requires
            self.wf(),
        ensures
            self.encodes(buffer@),
            buffer@ == self.spec_content(),
    {
        let buffer_size = Self::size_in_bytes(self.count) as usize;
        let mut buffer = vec![0u8; buffer_size];
        proof {
            self.lemma_capacity();
            assert forall|other: int| 0 <= other < 8 * buffer@.len() implies !#[trigger] buffer_bit(
                buffer@,
                other,
            ) by {
                lemma_byte_set(0u8, (other % 8) as u8, (other % 8) as u8);
            }
        }
        let mut index: u64 = 0;
        while index < self.count
            invariant
                self.wf(),
                index <= self.count,
                buffer@.len() == spec_size_in_bytes(self.count as nat),
                self.count <= 8 * buffer@.len(),
                forall|other: int|
                    0 <= other < 8 * buffer@.len() ==> #[trigger] buffer_bit(buffer@, other) == (
                    other < index && self.bit(other)),
            decreases self.count - index,
        {
            let occupied = self.get(index);
            assert(occupied is Ok);
            if let Ok(true) = occupied {
                let row = (index / BITS_IN_BYTE) as usize;
                let col = (index % BITS_IN_BYTE) as u8;
                let ghost before = buffer@;
                let chunk = buffer[row];
                buffer[row] = chunk | (1u8 << col);
                proof {
                    assert forall|other: int| 0 <= other < 8 * buffer@.len() implies #[trigger] buffer_bit(
                        buffer@,
                        other,
                    ) == (other < index + 1 && self.bit(other)) by {
                        assert(buffer_bit(before, other) == (other < index && self.bit(other)));
                        if other / 8 == row {
                            lemma_byte_set(chunk, col, (other % 8) as u8);
                        }
                    }
                }
            }
            index += 1;
        }
        proof {
            self.lemma_content_unique(buffer@);
        }
        buffer
    }

    /// Loading bytes into an empty bitmap and storing it gives back the
    /// bytes, where they have the bitmap's size and no bit at or beyond the
    /// count is set in them.
    pub proof fn lemma_load_flush_round_trip(&self, fresh: &Self, buffer: Seq<u8>)
        requires
            fresh.wf(),
            forall|index: int| 0 <= index < fresh.capacity() ==> !#[trigger] fresh.bit(index),
            self.loaded_from(fresh, buffer),
            buffer.len() == spec_size_in_bytes(fresh.count as nat),
            forall|index: int|
                fresh.count <= index < 8 * buffer.len() ==> !#[trigger] buffer_bit(buffer, index),
        ensures
            self.spec_content() == buffer,
    {
        fresh.lemma_capacity();
        assert(self.capacity() == fresh.capacity());
        assert forall|index: int| 0 <= index < 8 * buffer.len() implies #[trigger] buffer_bit(
            buffer,
            index,
        ) == (index < self.count && self.bit(index)) by {
            if index < self.count {
                assert(self.bit(index) == (fresh.bit(index) || buffer_bit(buffer, index)));
            }
        }
        self.lemma_content_unique(buffer);
    }

    /// Storing a bitmap and loading the bytes into an empty bitmap of the
    /// same count gives back every bit.
    pub proof fn lemma_flush_load_round_trip(&self, fresh: &Self, loaded: &Self)
        requires
            self.wf(),
            fresh.wf(),
            fresh.count == self.count,
            forall|index: int| 0 <= index < fresh.capacity() ==> !#[trigger] fresh.bit(index),
            loaded.loaded_from(fresh, self.spec_content()),
        ensures
            forall|index: int|
                0 <= index < self.capacity() ==> #[trigger] loaded.bit(index) == self.bit(index),
            loaded.used() == self.used(),
    {
        self.lemma_capacity();
        fresh.lemma_capacity();
        self.lemma_content_exists();
        let content = self.spec_content();
        assert(self.encodes(content));
        assert forall|index: int| 0 <= index < self.capacity() implies #[trigger] loaded.bit(index)
            == self.bit(index) by {
            if index < self.count {
                assert(buffer_bit(content, index) == (index < self.count && self.bit(index)));
            }
        }
        loaded.lemma_used_agree(self, self.count as int);
    }

    /// Some buffer stores the bitmap.
    pub proof fn lemma_content_exists(&self)
        requires
            self.wf(),
        ensures
            self.encodes(self.spec_content()),
    {
        self.lemma_capacity();
        let bytes = spec_size_in_bytes(self.count as nat);
        let witness = Seq::new(bytes, |at: int| self.spec_content_byte(at));
        assert forall|index: int| 0 <= index < 8 * witness.len() implies #[trigger] buffer_bit(
            witness,
            index,
        ) == (index < self.count && self.bit(index)) by {
            self.lemma_content_byte(index / 8, (index % 8) as u8);
        }
        assert(self.encodes(witness));
    }

    /// Bit `index` of the stored bytes, as a byte mask.
    pub open spec fn spec_content_mask(&self, index: int) -> u8 {
        if index < self.count && self.bit(index) {
            1u8 << ((index % 8) as u8)
        } else {
            0u8
        }
    }

    /// Byte `at` of the stored bytes.
    pub open spec fn spec_content_byte(&self, at: int) -> u8 {
        self.spec_content_mask(8 * at) | self.spec_content_mask(8 * at + 1)
            | self.spec_content_mask(8 * at + 2) | self.spec_content_mask(8 * at + 3)
            | self.spec_content_mask(8 * at + 4) | self.spec_content_mask(8 * at + 5)
            | self.spec_content_mask(8 * at + 6) | self.spec_content_mask(8 * at + 7)
    }

    proof fn lemma_content_byte(&self, at: int, col: u8)
        requires
            0 <= at,
            col < 8,
        ensures
            byte_bit(self.spec_content_byte(at), col) == (8 * at + col < self.count && self.bit(
                8 * at + col,
            )),
    {
        let m0 = self.spec_content_mask(8 * at);
        let m1 = self.spec_content_mask(8 * at + 1);
        let m2 = self.spec_content_mask(8 * at + 2);
        let m3 = self.spec_content_mask(8 * at + 3);
        let m4 = self.spec_content_mask(8 * at + 4);
        let m5 = self.spec_content_mask(8 * at + 5);
        let m6 = self.spec_content_mask(8 * at + 6);
        let m7 = self.spec_content_mask(8 * at + 7);
        assert((8 * at) % 8 == 0 && (8 * at + 1) % 8 == 1 && (8 * at + 2) % 8 == 2 && (8 * at + 3)
            % 8 == 3);
        assert((8 * at + 4) % 8 == 4 && (8 * at + 5) % 8 == 5 && (8 * at + 6) % 8 == 6 && (8 * at
            + 7) % 8 == 7);
        lemma_masks(m0, m1, m2, m3, m4, m5, m6, m7, col);
        lemma_mask_set(col);
    }
}

proof fn lemma_mask_set(col: u8)
    by (bit_vector)
    requires
        col < 8,
    ensures
        1u8 << col != 0,
{
}

proof fn lemma_masks(m0: u8, m1: u8, m2: u8, m3: u8, m4: u8, m5: u8, m6: u8, m7: u8, col: u8)
    by (bit_vector)
    requires
        col < 8,
        m0 == 0 || m0 == 1u8 << 0u8,
        m1 == 0 || m1 == 1u8 << 1u8,
        m2 == 0 || m2 == 1u8 << 2u8,
        m3 == 0 || m3 == 1u8 << 3u8,
        m4 == 0 || m4 == 1u8 << 4u8,
        m5 == 0 || m5 == 1u8 << 5u8,
        m6 == 0 || m6 == 1u8 << 6u8,
        m7 == 0 || m7 == 1u8 << 7u8,
    ensures
        ((m0 | m1 | m2 | m3 | m4 | m5 | m6 | m7) & (1u8 << col) != 0) == (if col == 0 {
            m0 != 0
        } else if col == 1 {
            m1 != 0
        } else if col == 2 {
            m2 != 0
        } else if col == 3 {
            m3 != 0
        } else if col == 4 {
            m4 != 0
        } else if col == 5 {
            m5 != 0
        } else if col == 6 {
            m6 != 0
        } else {
            m7 != 0
        }),
{
}

impl Bitmap<Inode> {
    /// Create new bitmap with all inodes inactive
    pub fn new(superblock: &Superblock) -> (bitmap: Self)
        requires
            superblock.wf(),
            spec_size_in_bytes(superblock.inode_count as nat) <= usize::MAX,
        ensures
            bitmap.wf(),
            bitmap.count == superblock.inode_count,
            bitmap.position == superblock.spec_bitmap_region_start(),
            forall|index: int| 0 <= index < bitmap.capacity() ==> !#[trigger] bitmap.bit(index),
            bitmap.used() == 0,
    {
        Self::empty(superblock.inode_count, superblock.bitmap_region_start())
    }
}

impl Bitmap<Block> {
    /// Create new bitmap with all blocks inactive
    pub fn new(superblock: &Superblock) -> (bitmap: Self)
        requires
            superblock.wf(),
            spec_size_in_bytes(superblock.block_count as nat) <= usize::MAX,
        ensures
            bitmap.wf(),
            bitmap.count == superblock.block_count,
            bitmap.position == superblock.spec_bitmap_region_start() + spec_size_in_bytes(
                superblock.inode_count as nat,
            ),
            forall|index: int| 0 <= index < bitmap.capacity() ==> !#[trigger] bitmap.bit(index),
            bitmap.used() == 0,
    {
        proof {
            superblock.lemma_regions_ordered();
        }
        Self::empty(
            superblock.block_count,
            superblock.bitmap_region_start() + Bitmap::<Inode>::size_in_bytes(
                superblock.inode_count,
            ),
        )
    }
}

} // verus!
