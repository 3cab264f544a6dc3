use vstd::prelude::*;

verus! {

/// An assembly image of the runtime, known only by address.
pub struct Il2CppImage;

/// The kinds of type that the runtime describes.
#[allow(non_camel_case_types)]
#[derive(Debug, Clone, Copy, PartialEq, Eq, Structural)]
pub enum Il2CppTypeEnum {
    END,
    VOID,
    BOOLEAN,
    CHAR,
    I1,
    U1,
    I2,
    U2,
    I4,
    U4,
    I8,
    U8,
    R4,
    R8,
    STRING,
    PTR,
    BYREF,
    VALUETYPE,
    CLASS,
    VAR,
    ARRAY,
    GENERICINST,
    TYPEDBYREF,
    I,
    U,
    FNPTR,
    OBJECT,
    SZARRAY,
    MVAR,
    CMOD_REQD,
    CMOD_OPT,
    INTERNAL,
    MODIFIER,
    SENTINEL,
    PINNED,
    ENUM,
}

impl Il2CppTypeEnum {
    /// The number by which the runtime names the kind.
    pub open spec fn spec_code(self) -> u32 {
        match self {
            Il2CppTypeEnum::END => 0x00,
            Il2CppTypeEnum::VOID => 0x01,
            Il2CppTypeEnum::BOOLEAN => 0x02,
            Il2CppTypeEnum::CHAR => 0x03,
            Il2CppTypeEnum::I1 => 0x04,
            Il2CppTypeEnum::U1 => 0x05,
            Il2CppTypeEnum::I2 => 0x06,
            Il2CppTypeEnum::U2 => 0x07,
            Il2CppTypeEnum::I4 => 0x08,
            Il2CppTypeEnum::U4 => 0x09,
            Il2CppTypeEnum::I8 => 0x0a,
            Il2CppTypeEnum::U8 => 0x0b,
            Il2CppTypeEnum::R4 => 0x0c,
            Il2CppTypeEnum::R8 => 0x0d,
            Il2CppTypeEnum::STRING => 0x0e,
            Il2CppTypeEnum::PTR => 0x0f,
            Il2CppTypeEnum::BYREF => 0x10,
            Il2CppTypeEnum::VALUETYPE => 0x11,
            Il2CppTypeEnum::CLASS => 0x12,
            Il2CppTypeEnum::VAR => 0x13,
            Il2CppTypeEnum::ARRAY => 0x14,
            Il2CppTypeEnum::GENERICINST => 0x15,
            Il2CppTypeEnum::TYPEDBYREF => 0x16,
            Il2CppTypeEnum::I => 0x18,
            Il2CppTypeEnum::U => 0x19,
            Il2CppTypeEnum::FNPTR => 0x1b,
            Il2CppTypeEnum::OBJECT => 0x1c,
            Il2CppTypeEnum::SZARRAY => 0x1d,
            Il2CppTypeEnum::MVAR => 0x1e,
            Il2CppTypeEnum::CMOD_REQD => 0x1f,
            Il2CppTypeEnum::CMOD_OPT => 0x20,
            Il2CppTypeEnum::INTERNAL => 0x21,
            Il2CppTypeEnum::MODIFIER => 0x40,
            Il2CppTypeEnum::SENTINEL => 0x41,
            Il2CppTypeEnum::PINNED => 0x45,
            Il2CppTypeEnum::ENUM => 0x55,
        }
    }

    /// The number by which the runtime names the kind.
    pub fn code(&self) -> (r: u32)
        ensures
            r == self.spec_code(),
    {
        match self {
            Il2CppTypeEnum::END => 0x00,
            Il2CppTypeEnum::VOID => 0x01,
            Il2CppTypeEnum::BOOLEAN => 0x02,
            Il2CppTypeEnum::CHAR => 0x03,
            Il2CppTypeEnum::I1 => 0x04,
            Il2CppTypeEnum::U1 => 0x05,
            Il2CppTypeEnum::I2 => 0x06,
            Il2CppTypeEnum::U2 => 0x07,
            Il2CppTypeEnum::I4 => 0x08,
            Il2CppTypeEnum::U4 => 0x09,
            Il2CppTypeEnum::I8 => 0x0a,
            Il2CppTypeEnum::U8 => 0x0b,
            Il2CppTypeEnum::R4 => 0x0c,
            Il2CppTypeEnum::R8 => 0x0d,
            Il2CppTypeEnum::STRING => 0x0e,
            Il2CppTypeEnum::PTR => 0x0f,
            Il2CppTypeEnum::BYREF => 0x10,
            Il2CppTypeEnum::VALUETYPE => 0x11,
            Il2CppTypeEnum::CLASS => 0x12,
            Il2CppTypeEnum::VAR => 0x13,
            Il2CppTypeEnum::ARRAY => 0x14,
            Il2CppTypeEnum::GENERICINST => 0x15,
            Il2CppTypeEnum::TYPEDBYREF => 0x16,
            Il2CppTypeEnum::I => 0x18,
            Il2CppTypeEnum::U => 0x19,
            Il2CppTypeEnum::FNPTR => 0x1b,
            Il2CppTypeEnum::OBJECT => 0x1c,
            Il2CppTypeEnum::SZARRAY => 0x1d,
            Il2CppTypeEnum::MVAR => 0x1e,
            Il2CppTypeEnum::CMOD_REQD => 0x1f,
            Il2CppTypeEnum::CMOD_OPT => 0x20,
            Il2CppTypeEnum::INTERNAL => 0x21,
            Il2CppTypeEnum::MODIFIER => 0x40,
            Il2CppTypeEnum::SENTINEL => 0x41,
            Il2CppTypeEnum::PINNED => 0x45,
            Il2CppTypeEnum::ENUM => 0x55,
        }
    }
}

/// A type as the runtime lays it out: the address of its data and a packed
/// word of attributes (bits 0 to 15), kind (16 to 23), modifier count (24 to
/// 29), by-reference flag (30) and pinned flag (31).
pub struct Il2CppType {
    pub data: usize,
    pub bitfield: u32,
}

impl Il2CppType {
    pub fn get_attrs(&self) -> (r: u32)
        ensures
            r == self.bitfield % 0x1_0000,
    {
        let b = self.bitfield;
        assert((b >> 0x00u32) & 0xffffu32 == b % 0x1_0000) by (bit_vector);
        (self.bitfield >> 0x00) & 0xffff
    }

    pub fn get_type(&self) -> (r: u32)
        ensures
            r == (self.bitfield / 0x1_0000) % 0x100,
    {
        let b = self.bitfield;
        assert((b >> 0x10u32) & 0xffu32 == (b / 0x1_0000) % 0x100) by (bit_vector);
        (self.bitfield >> 0x10) & 0xff
    }

    pub fn get_num_mods(&self) -> (r: u32)
        ensures
            r == (self.bitfield / 0x100_0000) % 0x40,
    {
        let b = self.bitfield;
        assert((b >> 0x18u32) & 0x3fu32 == (b / 0x100_0000) % 0x40) by (bit_vector);
        (self.bitfield >> 0x18) & 0x3f
    }

    pub fn get_byref(&self) -> (r: bool)
        ensures
            r == ((self.bitfield / 0x4000_0000) % 2 == 1),
    {
        let b = self.bitfield;
        assert(((b >> 0x1eu32) & 0x01u32 != 0) == ((b / 0x4000_0000) % 2 == 1)) by (bit_vector);
        (self.bitfield >> 0x1e) & 0x01 != 0
    }

    pub fn get_pinned(&self) -> (r: bool)
        ensures
            r == (self.bitfield >= 0x8000_0000),
    {
        let b = self.bitfield;
        assert(((b >> 0x1fu32) & 0x01u32 != 0) == (b >= 0x8000_0000)) by (bit_vector);
        (self.bitfield >> 0x1f) & 0x01 != 0
    }
}

} // verus!
