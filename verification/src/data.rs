use vstd::prelude::*;

verus! {

/// The one supported format version.
pub const FORMAT_VERSION: u32 = 1000;

/// A color value: one byte per channel. On disk each channel occupies a
/// 32-bit little-endian field whose high three bytes are ignored.
#[derive(Clone, Copy, Debug, PartialEq, Eq, Structural)]
pub struct RGB {
    pub red: u8,
    pub green: u8,
    pub blue: u8,
}

/// A table key: a character-id string, the costume variant it colors, and
/// the rank of this entry among all entries that share the same
/// `(character_id, costume_index)` pair. The rank (`alt_index`) is never
/// stored on disk; the decoder derives it from encounter order.
#[derive(Clone, Debug, Hash, PartialEq, Eq)]
pub struct EntryKey {
    pub character_id: String,
    pub costume_index: u8,
    pub alt_index: u8,
}

/// The mathematical model of an [`EntryKey`]: the character id as a
/// sequence of characters, plus the two byte-sized indices.
pub struct KeyModel {
    pub character_id: Seq<char>,
    pub costume_index: u8,
    pub alt_index: u8,
}

impl View for EntryKey {
    type V = KeyModel;

    open spec fn view(&self) -> KeyModel {
        KeyModel {
            character_id: self.character_id@,
            costume_index: self.costume_index,
            alt_index: self.alt_index,
        }
    }
}

/// Why a decode rejected its input.
#[derive(Clone, Copy, Debug, PartialEq, Eq, Structural)]
pub enum CodecError {
    /// The four-byte version field differs from the single supported version.
    UnsupportedVersion,
    /// A read or a resolved pointer ran past the available bytes.
    OutOfBounds,
    /// A character-id byte sequence is not valid UTF-8.
    InvalidStringEncoding,
}

} // verus!
