//! The property tags of the 7z header grammar.
use crate::error::ParseError;
use vstd::prelude::*;
use vstd::slice::slice_subrange;

verus! {

/// A property tag byte of the 7z header (`0x00`..=`0x19`).
#[allow(clippy::upper_case_acronyms)]
#[derive(PartialEq, Eq, Debug, Clone, Copy, Structural)]
pub enum Property {
    END,
    Header,
    ArchiveProperties,
    AdditionalStreamsInfo,
    MainStreamsInfo,
    FilesInfo,
    PackInfo,
    UnPackInfo,
    SubStreamsInfo,
    Size,
    CRC,
    Folder,
    CodersUnPackSize,
    NumUnPackStream,
    EmptyStream,
    EmptyFile,
    Anti,
    Name,
    CTime,
    ATime,
    MTime,
    Attributes,
    Comment,
    EncodedHeader,
    StartPos,
    Dummy,
}

impl Property {
    /// The tag byte of this property.
    pub open spec fn spec_id(self) -> u8 {
        match self {
            Property::END => 0x00,
            Property::Header => 0x01,
            Property::ArchiveProperties => 0x02,
            Property::AdditionalStreamsInfo => 0x03,
            Property::MainStreamsInfo => 0x04,
            Property::FilesInfo => 0x05,
            Property::PackInfo => 0x06,
            Property::UnPackInfo => 0x07,
            Property::SubStreamsInfo => 0x08,
            Property::Size => 0x09,
            Property::CRC => 0x0A,
            Property::Folder => 0x0B,
            Property::CodersUnPackSize => 0x0C,
            Property::NumUnPackStream => 0x0D,
            Property::EmptyStream => 0x0E,
            Property::EmptyFile => 0x0F,
            Property::Anti => 0x10,
            Property::Name => 0x11,
            Property::CTime => 0x12,
            Property::ATime => 0x13,
            Property::MTime => 0x14,
            Property::Attributes => 0x15,
            Property::Comment => 0x16,
            Property::EncodedHeader => 0x17,
            Property::StartPos => 0x18,
            Property::Dummy => 0x19,
        }
    }

    /// The property whose tag byte is `value`, if any.
    pub open spec fn spec_from_u8(value: u8) -> Option<Property> {
        if value == 0x00 {
            Some(Property::END)
        } else if value == 0x01 {
            Some(Property::Header)
        } else if value == 0x02 {
            Some(Property::ArchiveProperties)
        } else if value == 0x03 {
            Some(Property::AdditionalStreamsInfo)
        } else if value == 0x04 {
            Some(Property::MainStreamsInfo)
        } else if value == 0x05 {
            Some(Property::FilesInfo)
        } else if value == 0x06 {
            Some(Property::PackInfo)
        } else if value == 0x07 {
            Some(Property::UnPackInfo)
        } else if value == 0x08 {
            Some(Property::SubStreamsInfo)
        } else if value == 0x09 {
            Some(Property::Size)
        } else if value == 0x0A {
            Some(Property::CRC)
        } else if value == 0x0B {
            Some(Property::Folder)
        } else if value == 0x0C {
            Some(Property::CodersUnPackSize)
        } else if value == 0x0D {
            Some(Property::NumUnPackStream)
        } else if value == 0x0E {
            Some(Property::EmptyStream)
        } else if value == 0x0F {
            Some(Property::EmptyFile)
        } else if value == 0x10 {
            Some(Property::Anti)
        } else if value == 0x11 {
            Some(Property::Name)
        } else if value == 0x12 {
            Some(Property::CTime)
        } else if value == 0x13 {
            Some(Property::ATime)
        } else if value == 0x14 {
            Some(Property::MTime)
        } else if value == 0x15 {
            Some(Property::Attributes)
        } else if value == 0x16 {
            Some(Property::Comment)
        } else if value == 0x17 {
            Some(Property::EncodedHeader)
        } else if value == 0x18 {
            Some(Property::StartPos)
        } else if value == 0x19 {
            Some(Property::Dummy)
        } else {
            None
        }
    }

    /// The property whose tag byte is `value`, if any.
    #[must_use]
    pub fn from_u8(value: u8) -> (r: Option<Property>)
        ensures
            r == Property::spec_from_u8(value),
            r matches Some(p) ==> p.spec_id() == value,
            r is Some <==> value <= 0x19,
    {
        match value {
            0x00 => Some(Property::END),
            0x01 => Some(Property::Header),
            0x02 => Some(Property::ArchiveProperties),
            0x03 => Some(Property::AdditionalStreamsInfo),
            0x04 => Some(Property::MainStreamsInfo),
            0x05 => Some(Property::FilesInfo),
            0x06 => Some(Property::PackInfo),
            0x07 => Some(Property::UnPackInfo),
            0x08 => Some(Property::SubStreamsInfo),
            0x09 => Some(Property::Size),
            0x0A => Some(Property::CRC),
            0x0B => Some(Property::Folder),
            0x0C => Some(Property::CodersUnPackSize),
            0x0D => Some(Property::NumUnPackStream),
            0x0E => Some(Property::EmptyStream),
            0x0F => Some(Property::EmptyFile),
            0x10 => Some(Property::Anti),
            0x11 => Some(Property::Name),
            0x12 => Some(Property::CTime),
            0x13 => Some(Property::ATime),
            0x14 => Some(Property::MTime),
            0x15 => Some(Property::Attributes),
            0x16 => Some(Property::Comment),
            0x17 => Some(Property::EncodedHeader),
            0x18 => Some(Property::StartPos),
            0x19 => Some(Property::Dummy),
            _ => None,
        }
    }

    /// Parse a single property tag byte.
    pub fn parse(input: &[u8]) -> (res: Result<(&[u8], Property), ParseError>)
        ensures
            match spec_parse_property(input@) {
                None => res is Err,
                Some(p) => res matches Ok((rem, q)) && q == p && rem@ == input@.skip(1),
            },
    {
        if input.len() == 0 {
            return Err(ParseError);
        }
        match Self::from_u8(input[0]) {
            Some(p) => Ok((slice_subrange(input, 1, input.len()), p)),
            None => Err(ParseError),
        }
    }
}

/// The property tag at the start of `s`, when `s` is non-empty and its first
/// byte is a known tag.
pub open spec fn spec_parse_property(s: Seq<u8>) -> Option<Property> {
    if s.len() == 0 {
        None
    } else {
        Property::spec_from_u8(s[0])
    }
}

/// Tag bytes and properties correspond one to one.
pub proof fn lemma_property_id_roundtrip(p: Property)
    ensures
        Property::spec_from_u8(p.spec_id()) == Some(p),
{
}

/// Advance `offset` bytes into `input`, then parse a property tag.
pub fn find_next_property_id(input: &[u8], offset: usize) -> (res: Result<(&[u8], Property), ParseError>)
    requires
        offset <= input@.len(),
    ensures
        match spec_parse_property(input@.skip(offset as int)) {
            None => res is Err,
            Some(p) => res matches Ok((rem, q)) && q == p && rem@ == input@.skip(offset + 1),
        },
{
    let rest = slice_subrange(input, offset, input.len());
    let r = Property::parse(rest);
    proof {
        if r is Ok {
            assert(input@.skip(offset as int).skip(1) =~= input@.skip(offset + 1));
        }
    }
    r
}

} // verus!
