//! The tag table: classification of a lead octet into the logical kind of
//! the value it introduces and the sub-encoding variant in use.

use vstd::prelude::*;

verus! {

/// Sub-encodings of a binary (byte string) value.
#[derive(Debug, Clone, Copy, PartialEq, Eq)]
pub enum Binary {
    /// `[0x20-0x2f]`: length in the tag itself.
    Short(u8),
    /// `[0x34-0x37]`: two-octet length.
    TwoOctet(u8),
    /// `0x41` chunk / `0x42` final chunk.
    Long(u8),
}

/// Sub-encodings of a 32-bit integer.
#[derive(Debug, Clone, Copy, PartialEq, Eq)]
pub enum Integer {
    /// `[0x80-0xbf]`: the value is in the tag itself.
    Direct(u8),
    /// `[0xc0-0xcf]`: one more octet.
    Byte(u8),
    /// `[0xd0-0xd7]`: two more octets.
    Short(u8),
    /// `'I'`: four more octets, big-endian.
    Normal,
}

/// Sub-encodings of a 64-bit integer.
#[derive(Debug, Clone, Copy, PartialEq, Eq)]
pub enum Long {
    /// `[0xd8-0xef]`: the value is in the tag itself.
    Direct(u8),
    /// `[0xf0-0xff]`: one more octet.
    Byte(u8),
    /// `[0x38-0x3f]`: two more octets.
    Short(u8),
    /// `0x59`: four more octets, big-endian.
    Int32,
    /// `'L'`: eight more octets, big-endian.
    Normal,
}

/// Sub-encodings of a 64-bit double.
#[derive(Debug, Clone, Copy, PartialEq, Eq)]
pub enum Double {
    /// `0x5b`: the value 0.0.
    Zero,
    /// `0x5c`: the value 1.0.
    One,
    /// `0x5d`: one signed octet, cast to double.
    Byte,
    /// `0x5e`: two octets, a big-endian signed short cast to double.
    Short,
    /// `0x5f`: four octets, a big-endian signed int scaled by 0.001.
    Float,
    /// `'D'`: eight octets, the IEEE-754 bit pattern big-endian.
    Normal,
}

/// Sub-encodings of a date.
#[derive(Debug, Clone, Copy, PartialEq, Eq)]
pub enum Date {
    /// `0x4a`: eight octets, milliseconds since the epoch.
    Millisecond,
    /// `0x4b`: four octets, minutes since the epoch.
    Minute,
}

/// Sub-encodings of a list.
#[derive(Debug, Clone, Copy, PartialEq, Eq)]
pub enum List {
    /// `0x55` typed / `0x57` untyped: values until the `'Z'` terminator.
    VarLength(bool),
    /// `'V'` typed / `0x58` untyped: an int length, then that many values.
    FixedLength(bool),
    /// `[0x70-0x77]` typed / `[0x78-0x7f]` untyped: length in the tag.
    ShortFixedLength(bool, usize),
}

/// Sub-encodings of a string.
#[derive(Debug, Clone, Copy, PartialEq, Eq)]
pub enum Str {
    /// `[0x00-0x1f]`: string of 0-31 characters.
    Compact(u8),
    /// `[0x30-0x33]`: string of 0-1023 characters.
    Small(u8),
    /// `0x52`: non-final chunk.
    Chunk,
    /// `'S'`: final chunk.
    FinalChunk,
}

/// Sub-encodings of an object instantiation.
#[derive(Debug, Clone, Copy, PartialEq, Eq)]
pub enum Object {
    /// `[0x60-0x6f]`: definition index in the tag itself.
    Compact(u8),
    /// `'O'`: an int definition index.
    Normal,
}

/// The logical kind introduced by a lead octet, with its sub-encoding.
#[derive(Debug, Clone, Copy, PartialEq, Eq)]
pub enum ByteCodecType {
    True,
    False,
    Null,
    Definition,
    Object(Object),
    Ref,
    Int(Integer),
    Long(Long),
    Double(Double),
    Date(Date),
    Binary(Binary),
    List(List),
    Dict(bool),
    Str(Str),
    Unknown,
}

impl ByteCodecType {
    /// The tag table as a function of the lead octet.
    pub open spec fn spec_from(c: u8) -> ByteCodecType {
        if c == 0x54 {
            ByteCodecType::True
        } else if c == 0x46 {
            ByteCodecType::False
        } else if c == 0x4e {
            ByteCodecType::Null
        } else if c == 0x51 {
            ByteCodecType::Ref
        } else if c == 0x4d {
            ByteCodecType::Dict(true)
        } else if c == 0x48 {
            ByteCodecType::Dict(false)
        } else if c == 0x55 {
            ByteCodecType::List(List::VarLength(true))
        } else if c == 0x56 {
            ByteCodecType::List(List::FixedLength(true))
        } else if c == 0x57 {
            ByteCodecType::List(List::VarLength(false))
        } else if c == 0x58 {
            ByteCodecType::List(List::FixedLength(false))
        } else if 0x70 <= c <= 0x77 {
            ByteCodecType::List(List::ShortFixedLength(true, (c - 0x70) as usize))
        } else if 0x78 <= c <= 0x7f {
            ByteCodecType::List(List::ShortFixedLength(false, (c - 0x78) as usize))
        } else if c == 0x4f {
            ByteCodecType::Object(Object::Normal)
        } else if 0x60 <= c <= 0x6f {
            ByteCodecType::Object(Object::Compact(c))
        } else if c == 0x43 {
            ByteCodecType::Definition
        } else if 0x80 <= c <= 0xbf {
            ByteCodecType::Int(Integer::Direct(c))
        } else if 0xc0 <= c <= 0xcf {
            ByteCodecType::Int(Integer::Byte(c))
        } else if 0xd0 <= c <= 0xd7 {
            ByteCodecType::Int(Integer::Short(c))
        } else if c == 0x49 {
            ByteCodecType::Int(Integer::Normal)
        } else if 0xd8 <= c <= 0xef {
            ByteCodecType::Long(Long::Direct(c))
        } else if 0xf0 <= c {
            ByteCodecType::Long(Long::Byte(c))
        } else if 0x38 <= c <= 0x3f {
            ByteCodecType::Long(Long::Short(c))
        } else if c == 0x59 {
            ByteCodecType::Long(Long::Int32)
        } else if c == 0x4c {
            ByteCodecType::Long(Long::Normal)
        } else if c == 0x5b {
            ByteCodecType::Double(Double::Zero)
        } else if c == 0x5c {
            ByteCodecType::Double(Double::One)
        } else if c == 0x5d {
            ByteCodecType::Double(Double::Byte)
        } else if c == 0x5e {
            ByteCodecType::Double(Double::Short)
        } else if c == 0x5f {
            ByteCodecType::Double(Double::Float)
        } else if c == 0x44 {
            ByteCodecType::Double(Double::Normal)
        } else if c == 0x4a {
            ByteCodecType::Date(Date::Millisecond)
        } else if c == 0x4b {
            ByteCodecType::Date(Date::Minute)
        } else if 0x20 <= c <= 0x2f {
            ByteCodecType::Binary(Binary::Short(c))
        } else if 0x34 <= c <= 0x37 {
            ByteCodecType::Binary(Binary::TwoOctet(c))
        } else if c == 0x42 || c == 0x41 {
            ByteCodecType::Binary(Binary::Long(c))
        } else if c <= 0x1f {
            ByteCodecType::Str(Str::Compact(c))
        } else if 0x30 <= c <= 0x33 {
            ByteCodecType::Str(Str::Small(c))
        } else if c == 0x52 {
            ByteCodecType::Str(Str::Chunk)
        } else if c == 0x53 {
            ByteCodecType::Str(Str::FinalChunk)
        } else {
            ByteCodecType::Unknown
        }
    }

    /// Classify a lead octet.
    pub fn from(c: u8) -> (r: ByteCodecType)
        ensures
            r == ByteCodecType::spec_from(c),
    {
        match c {
            0x54 => ByteCodecType::True,
            0x46 => ByteCodecType::False,
            0x4e => ByteCodecType::Null,
            0x51 => ByteCodecType::Ref,
            0x4d => ByteCodecType::Dict(true),
            0x48 => ByteCodecType::Dict(false),
            0x55 => ByteCodecType::List(List::VarLength(true)),
            0x56 => ByteCodecType::List(List::FixedLength(true)),
            0x57 => ByteCodecType::List(List::VarLength(false)),
            0x58 => ByteCodecType::List(List::FixedLength(false)),
            0x70..=0x77 => ByteCodecType::List(List::ShortFixedLength(true, (c - 0x70) as usize)),
            0x78..=0x7f => ByteCodecType::List(List::ShortFixedLength(false, (c - 0x78) as usize)),
            0x4f => ByteCodecType::Object(Object::Normal),
            0x60..=0x6f => ByteCodecType::Object(Object::Compact(c)),
            0x43 => ByteCodecType::Definition,
            0x80..=0xbf => ByteCodecType::Int(Integer::Direct(c)),
            0xc0..=0xcf => ByteCodecType::Int(Integer::Byte(c)),
            0xd0..=0xd7 => ByteCodecType::Int(Integer::Short(c)),
            0x49 => ByteCodecType::Int(Integer::Normal),
            0xd8..=0xef => ByteCodecType::Long(Long::Direct(c)),
            0xf0..=0xff => ByteCodecType::Long(Long::Byte(c)),
            0x38..=0x3f => ByteCodecType::Long(Long::Short(c)),
            0x59 => ByteCodecType::Long(Long::Int32),
            0x4c => ByteCodecType::Long(Long::Normal),
            0x5b => ByteCodecType::Double(Double::Zero),
            0x5c => ByteCodecType::Double(Double::One),
            0x5d => ByteCodecType::Double(Double::Byte),
            0x5e => ByteCodecType::Double(Double::Short),
            0x5f => ByteCodecType::Double(Double::Float),
            0x44 => ByteCodecType::Double(Double::Normal),
            0x4a => ByteCodecType::Date(Date::Millisecond),
            0x4b => ByteCodecType::Date(Date::Minute),
            0x20..=0x2f => ByteCodecType::Binary(Binary::Short(c)),
            0x34..=0x37 => ByteCodecType::Binary(Binary::TwoOctet(c)),
            0x42 | 0x41 => ByteCodecType::Binary(Binary::Long(c)),
            0x00..=0x1f => ByteCodecType::Str(Str::Compact(c)),
            0x30..=0x33 => ByteCodecType::Str(Str::Small(c)),
            0x52 => ByteCodecType::Str(Str::Chunk),
            0x53 => ByteCodecType::Str(Str::FinalChunk),
            _ => ByteCodecType::Unknown,
        }
    }
}

} // verus!
