use vstd::prelude::*;
use crate::octree::Octree;
use crate::traversal::decoded;
use crate::wire::{fault, DecodeError};

verus! {

/// Number of bytes that a record takes in a file.
pub const RECORD_BYTES: usize = 12;

/// The 32-bit limb `j` of a word, limb 0 being the lowest.
pub open spec fn limb(word: u128, j: int) -> u32 {
    ((word >> ((32 * j) as u128)) & 0xFFFF_FFFF) as u32
}

/// The records as 32-bit limbs: four for each record, the lowest first.
pub open spec fn buffer_of(serial: Seq<u128>) -> Seq<u32> {
    Seq::new(4 * serial.len(), |i: int| limb(serial[i / 4], i % 4))
}

/// Byte `i` of a word, byte 0 being the lowest.
pub open spec fn byte_of(word: u128, i: int) -> u8 {
    ((word >> ((8 * i) as u128)) & 0xFF) as u8
}

/// The records as bytes: the twelve lowest bytes of each record, the
/// lowest first, one record after the other.
pub open spec fn bytes_of(serial: Seq<u128>) -> Seq<u8> {
    Seq::new(12 * serial.len(), |i: int| byte_of(serial[i / 12], i % 12))
}

/// The word whose `count` lowest bytes are those of `chunk`, the lowest
/// first.
pub open spec fn word_of(chunk: Seq<u8>, count: nat) -> u128
    decreases count,
{
    if count == 0 {
        0
    } else {
        word_of(chunk, (count - 1) as nat) | ((chunk[count - 1] as u128) << ((8 * (count
            - 1)) as u128))
    }
}

/// The records that a file holds: one for each full group of twelve bytes.
/// Bytes behind the last full group are not read.
pub open spec fn words_of(bytes: Seq<u8>) -> Seq<u128> {
    Seq::new(
        (bytes.len() / 12) as nat,
        |k: int| word_of(bytes.subrange(12 * k, 12 * k + 12), 12),
    )
}

/// A limb fits 32 bits.
proof fn lemma_limb_fits(word: u128, j: u128)
    by (bit_vector)
    requires
        j < 4,
    ensures
        (word >> ((32 * j) as u128)) & 0xFFFF_FFFF <= 0xFFFF_FFFF,
{
}

/// A byte of a word fits 8 bits.
proof fn lemma_byte_fits(word: u128, i: u128)
    by (bit_vector)
    requires
        i < 16,
    ensures
        (word >> ((8 * i) as u128)) & 0xFF <= 0xFF,
{
}

/// Putting byte `i` of a word above its `i` lowest bytes gives its `i + 1`
/// lowest bytes.
proof fn lemma_low_bytes_step(word: u128, i: u128)
    by (bit_vector)
    requires
        i < 12,
    ensures
        (word & (((1u128 << ((8 * i) as u128)) - 1) as u128)) | (((((word >> ((8 * i) as u128))
            & 0xFF) as u8) as u128) << ((8 * i) as u128)) == word & (((1u128 << ((8 * i
            + 8) as u128)) - 1) as u128),
{
}

/// No byte of a word is zero; twelve bytes are 96 bits.
proof fn lemma_low_bytes_none(word: u128)
    by (bit_vector)
    ensures
        word & (((1u128 << 0) - 1) as u128) == 0,
        ((1u128 << 96) - 1) as u128 == 0xFFFF_FFFF_FFFF_FFFF_FFFF_FFFFu128,
{
}

/// The low 96 bits of a word hold its child fields and none of its payload
/// field.
proof fn lemma_low_part(word: u128, slot: u128)
    by (bit_vector)
    requires
        slot < 8,
    ensures
        ((word & 0xFFFF_FFFF_FFFF_FFFF_FFFF_FFFFu128) >> 96) as u32 == 0,
        (((word & 0xFFFF_FFFF_FFFF_FFFF_FFFF_FFFFu128) >> ((84 - 12 * slot) as u128)) & 0xFFF) as u32
            == ((word >> ((84 - 12 * slot) as u128)) & 0xFFF) as u32,
{
}

/// The word put together from the `count` lowest bytes of `word` is
/// `word` below bit `8 * count`.
proof fn lemma_word_of_bytes(word: u128, chunk: Seq<u8>, count: nat)
    requires
        count <= 12,
        chunk.len() >= count,
        forall|i: int| 0 <= i < count ==> #[trigger] chunk[i] == byte_of(word, i),
    ensures
        word_of(chunk, count) == word & (((1u128 << ((8 * count) as u128)) - 1) as u128),
    decreases count,
{
    if count == 0 {
        lemma_low_bytes_none(word);
    } else {
        let i = (count - 1) as nat;
        lemma_word_of_bytes(word, chunk, i);
        assert(chunk[i as int] == byte_of(word, i as int));
        lemma_low_bytes_step(word, i as u128);
    }
}

/// What is left of the records after they went through a file: of each
/// record the low 96 bits, which hold the eight child fields.  The payload
/// field is not among the twelve bytes that are written: it comes back as
/// zero, which stands for "no payload".
pub proof fn lemma_file_round_trip(serial: Seq<u128>, row: int, slot: int)
    requires
        0 <= row < serial.len(),
        0 <= slot < 8,
    ensures
        words_of(bytes_of(serial)).len() == serial.len(),
        words_of(bytes_of(serial))[row] == serial[row] & 0xFFFF_FFFF_FFFF_FFFF_FFFF_FFFFu128,
        crate::serialise::word_payload(words_of(bytes_of(serial))[row]) == 0,
        crate::serialise::word_child(words_of(bytes_of(serial))[row], slot)
            == crate::serialise::word_child(serial[row], slot),
{
    let bytes = bytes_of(serial);
    let chunk = bytes.subrange(12 * row, 12 * row + 12);
    assert forall|i: int| 0 <= i < 12 implies #[trigger] chunk[i] == byte_of(serial[row], i) by {
        assert(chunk[i] == bytes[12 * row + i]);
        assert((12 * row + i) / 12 == row);
        assert((12 * row + i) % 12 == i);
    }
    lemma_word_of_bytes(serial[row], chunk, 12);
    lemma_low_bytes_none(serial[row]);
    lemma_low_part(serial[row], slot as u128);
}

/// The records written as bytes: twelve for each record.
pub fn encode_records(serial: &Vec<u128>) -> (bytes: Vec<u8>)
    ensures
        bytes@ == bytes_of(serial@),
{
    let mut bytes: Vec<u8> = Vec::new();
    let mut row: usize = 0;
    while row < serial.len()
        invariant
            row <= serial.len(),
            bytes@ == bytes_of(serial@.take(row as int)),
        decreases serial.len() - row,
    {
        let chunk: u128 = serial[row];
        let ghost done = bytes@;
        let mut i: usize = 0;
        while i < RECORD_BYTES
            invariant
                i <= 12,
                row < serial.len(),
                chunk == serial@[row as int],
                bytes@ == done + Seq::new(i as nat, |b: int| byte_of(chunk, b)),
            decreases 12 - i,
        {
            proof {
                lemma_byte_fits(chunk, i as u128);
            }
            let byte: u8 = ((chunk >> ((8 * i) as u128)) & 0xFF) as u8;
            let ghost before = bytes@;
            bytes.push(byte);
            proof {
                assert(bytes@ =~= done + Seq::new((i + 1) as nat, |b: int| byte_of(chunk, b)));
            }
            i = i + 1;
        }
        proof {
            let next = serial@.take(row as int + 1);
            assert(bytes@.len() == bytes_of(next).len());
            assert forall|p: int| 0 <= p < bytes@.len() implies bytes@[p] == bytes_of(next)[p] by {
                if p < 12 * row {
                    assert(bytes@[p] == done[p]);
                    assert(p / 12 < row);
                } else {
                    assert(p / 12 == row);
                    assert(p % 12 == p - 12 * row);
                }
            }
            assert(bytes@ =~= bytes_of(next));
        }
        row = row + 1;
    }
    proof {
        assert(serial@.take(serial.len() as int) =~= serial@);
    }
    bytes
}

/// The records read from bytes: one for each full group of twelve bytes.
pub fn decode_records(bytes: &Vec<u8>) -> (serial: Vec<u128>)
    ensures
        serial@ == words_of(bytes@),
{
    let count: usize = bytes.len() / 12;
    assert(12 * count <= bytes@.len());
    let mut serial: Vec<u128> = Vec::new();
    let mut row: usize = 0;
    while row < count
        invariant
            row <= count,
            12 * count <= bytes@.len(),
            words_of(bytes@).len() == count,
            serial@ == words_of(bytes@).take(row as int),
        decreases count - row,
    {
        assert(12 * row + 12 <= bytes.len()) by {
            assert(row + 1 <= count);
        }
        let base: usize = row * 12;
        let ghost chunk = bytes@.subrange(base as int, base + 12);
        let mut word: u128 = 0;
        let mut i: usize = 0;
        while i < RECORD_BYTES
            invariant
                i <= 12,
                base + 12 <= bytes.len(),
                chunk == bytes@.subrange(base as int, base + 12),
                word == word_of(chunk, i as nat),
            decreases 12 - i,
        {
            let byte: u8 = bytes[base + i];
            let ghost earlier = word;
            word = word | ((byte as u128) << ((8 * i) as u128));
            proof {
                assert(chunk[i as int] == byte);
                assert(word_of(chunk, (i + 1) as nat) == word_of(chunk, i as nat) | ((chunk[i as int] as u128)
                    << ((8 * i) as u128)));
            }
            i = i + 1;
        }
        serial.push(word);
        proof {
            assert(words_of(bytes@)[row as int] == word);
            assert(serial@ =~= words_of(bytes@).take(row as int + 1));
        }
        row = row + 1;
    }
    proof {
        assert(words_of(bytes@).take(count as int) =~= words_of(bytes@));
    }
    serial
}

impl Octree {
    /// The records as 32-bit limbs, four for each record, the lowest first.
    pub fn serialised_to_buffer(serial: Vec<u128>) -> (buffer: Vec<u32>)
        ensures
            buffer@ == buffer_of(serial@),
    {
        let mut buffer: Vec<u32> = Vec::new();
        let mut row: usize = 0;
        while row < serial.len()
            invariant
                row <= serial.len(),
                buffer@ == buffer_of(serial@.take(row as int)),
            decreases serial.len() - row,
        {
            let chunk: u128 = serial[row];
            let ghost done = buffer@;
            proof {
                lemma_limb_fits(chunk, 0);
                lemma_limb_fits(chunk, 1);
                lemma_limb_fits(chunk, 2);
                lemma_limb_fits(chunk, 3);
            }
            buffer.push((chunk & 0xFFFF_FFFF) as u32);
            buffer.push(((chunk >> 32) & 0xFFFF_FFFF) as u32);
            buffer.push(((chunk >> 64) & 0xFFFF_FFFF) as u32);
            buffer.push(((chunk >> 96) & 0xFFFF_FFFF) as u32);
            proof {
                assert(chunk >> 0 == chunk) by (bit_vector);
                let next = serial@.take(row as int + 1);
                assert(buffer@.len() == buffer_of(next).len());
                assert forall|p: int| 0 <= p < buffer@.len() implies buffer@[p] == buffer_of(
                    next,
                )[p] by {
                    if p < 4 * row {
                        assert(buffer@[p] == done[p]);
                        assert(p / 4 < row);
                    } else {
                        assert(p / 4 == row);
                        assert(p % 4 == p - 4 * row);
                    }
                }
                assert(buffer@ =~= buffer_of(next));
            }
            row = row + 1;
        }
        proof {
            assert(serial@.take(serial.len() as int) =~= serial@);
        }
        buffer
    }

    /// The bytes of the file that holds the tree: the table of records,
    /// depth first, twelve bytes for each record.
    pub fn to_bytes(&self) -> (bytes: Vec<u8>)
        requires
            self@.wf(),
        ensures
            bytes@ == bytes_of(self@.serialised(false)),
    {
        let serial: Vec<u128> = self.serialise();
        encode_records(&serial)
    }

    /// The tree that the bytes of a file hold, or why they hold none.
    pub fn from_bytes(bytes: &Vec<u8>) -> (outcome: Result<Self, DecodeError>)
        ensures
            match outcome {
                Ok(tree) => fault(decoded(words_of(bytes@))) is None && tree@.wf() && tree@.nodes
                    == decoded(words_of(bytes@)) && tree@.depth == 0,
                Err(error) => fault(decoded(words_of(bytes@))) == Some(error),
            },
    {
        Self::try_deserialise(decode_records(bytes))
    }
}

} // verus!
