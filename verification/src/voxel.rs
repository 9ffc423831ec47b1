use vstd::prelude::*;

verus! {

/// Presence tag carried in the most significant byte of a packed payload.
pub const PRESENT_TAG: u32 = 0xFF;

/// The payload of one voxel: a colour with eight bits per channel.
#[derive(Debug, Copy, Clone, PartialEq, Eq, Structural)]
pub struct NodeDataType {
    pub red: u8,
    pub green: u8,
    pub blue: u8,
}

/// The 32-bit packed form of a payload: the presence tag `0xFF` in the top
/// byte, then red, green and blue, one byte each.
pub open spec fn packed(data: NodeDataType) -> u32 {
    (0xFF00_0000 + data.red * 0x1_0000 + data.green * 0x100 + data.blue) as u32
}

/// The payload that a 32-bit word stands for: none when its tag byte is
/// zero, otherwise the three channel bytes below the tag.
pub open spec fn unpacked(word: u32) -> Option<NodeDataType> {
    if word / 0x100_0000 == 0 {
        None
    } else {
        Some(
            NodeDataType {
                red: ((word / 0x1_0000) % 0x100) as u8,
                green: ((word / 0x100) % 0x100) as u8,
                blue: (word % 0x100) as u8,
            },
        )
    }
}

impl NodeDataType {
    /// The payload with the given channels.
    pub fn new(red: u8, green: u8, blue: u8) -> (data: Self)
        ensures
            data == (NodeDataType { red, green, blue }),
    {
        Self { red, green, blue }
    }

    /// Packs the payload into 32 bits.
    pub fn serialise(&self) -> (word: u32)
        ensures
            word == packed(*self),
    {
        let red: u8 = self.red;
        let green: u8 = self.green;
        let blue: u8 = self.blue;
        let word: u32 = (PRESENT_TAG << 24) | ((red as u32) << 16) | ((green as u32) << 8) | (
        blue as u32);
        assert(word == 0xFF00_0000 + red * 0x1_0000 + green * 0x100 + blue) by (bit_vector)
            requires
                word == (0xFFu32 << 24) | ((red as u32) << 16) | ((green as u32) << 8) | (
                blue as u32),
        ;
        word
    }

    /// Unpacks a 32-bit word; a zero tag byte means that there is no payload.
    pub fn deserialise(val: u32) -> (data: Option<Self>)
        ensures
            data == unpacked(val),
    {
        let tag: u32 = val >> 24;
        assert(tag == val / 0x100_0000) by (bit_vector)
            requires
                tag == val >> 24,
        ;
        if tag > 0 {
            let red: u8 = ((val >> 16) & 0xFF) as u8;
            let green: u8 = ((val >> 8) & 0xFF) as u8;
            let blue: u8 = (val & 0xFF) as u8;
            assert(red == ((val / 0x1_0000) % 0x100) as u8 && green == ((val / 0x100) % 0x100) as u8
                && blue == (val % 0x100) as u8) by (bit_vector)
                requires
                    red == ((val >> 16) & 0xFF) as u8,
                    green == ((val >> 8) & 0xFF) as u8,
                    blue == (val & 0xFF) as u8,
            ;
            Some(Self::new(red, green, blue))
        } else {
            None
        }
    }
}

/// Unpacking a packed payload gives the payload back.
pub proof fn lemma_unpack_packed(data: NodeDataType)
    ensures
        unpacked(packed(data)) == Some(data),
        packed(data) >= 0xFF00_0000,
{
}

} // verus!
