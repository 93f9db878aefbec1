//! The closed catalog of viewable data types: element byte widths and the
//! fixed display width of every (data type, display base) pair.

use vstd::prelude::*;

verus! {

/// The type a run of raw bytes is reinterpreted as.
#[derive(Clone, Copy, Debug, PartialEq, Eq, Structural)]
pub enum DataType {
    U8,
    I8,
    U16,
    I16,
    U32,
    I32,
    U64,
    I64,
    F32,
    F64,
}

/// The base a value is displayed in.  Floating-point data always uses its
/// scientific form, whatever base is active.
#[derive(Clone, Copy, Debug, PartialEq, Eq, Structural)]
pub enum DisplayType {
    Decimal,
    HexaDecimal,
}

/// The order in which the bytes of one element are grouped into a value.
#[derive(Clone, Copy, Debug, PartialEq, Eq, Structural)]
pub enum Endianness {
    Little,
    Big,
}

impl DataType {
    /// How many consecutive bytes make one element of this type.
    pub open spec fn spec_byte_width(self) -> nat {
        match self {
            DataType::U8 => 1,
            DataType::I8 => 1,
            DataType::U16 => 2,
            DataType::I16 => 2,
            DataType::U32 => 4,
            DataType::I32 => 4,
            DataType::U64 => 8,
            DataType::I64 => 8,
            DataType::F32 => 4,
            DataType::F64 => 8,
        }
    }

    /// Whether this type is displayed as a signed integer.
    pub open spec fn spec_is_signed(self) -> bool {
        match self {
            DataType::I8 => true,
            DataType::I16 => true,
            DataType::I32 => true,
            DataType::I64 => true,
            _ => false,
        }
    }

    /// Whether this type is one of the floating-point widths.
    pub open spec fn spec_is_float(self) -> bool {
        self == DataType::F32 || self == DataType::F64
    }

    /// The fixed character width of one formatted value of this type in
    /// the given base, before the base suffix and inter-column spacing.
    pub open spec fn spec_display_width(self, display: DisplayType) -> nat {
        match (self, display) {
            (DataType::U8, DisplayType::Decimal) => 3,
            (DataType::I8, DisplayType::Decimal) => 4,
            (DataType::U16, DisplayType::Decimal) => 5,
            (DataType::I16, DisplayType::Decimal) => 6,
            (DataType::U32, DisplayType::Decimal) => 10,
            (DataType::I32, DisplayType::Decimal) => 11,
            (DataType::U64, DisplayType::Decimal) => 20,
            (DataType::I64, DisplayType::Decimal) => 20,
            (DataType::U8, DisplayType::HexaDecimal) => 2,
            (DataType::I8, DisplayType::HexaDecimal) => 2,
            (DataType::U16, DisplayType::HexaDecimal) => 4,
            (DataType::I16, DisplayType::HexaDecimal) => 4,
            (DataType::U32, DisplayType::HexaDecimal) => 8,
            (DataType::I32, DisplayType::HexaDecimal) => 8,
            (DataType::U64, DisplayType::HexaDecimal) => 16,
            (DataType::I64, DisplayType::HexaDecimal) => 16,
            (DataType::F32, DisplayType::Decimal) => 14,
            (DataType::F64, DisplayType::Decimal) => 23,
            (DataType::F32, DisplayType::HexaDecimal) => 4,
            (DataType::F64, DisplayType::HexaDecimal) => 8,
        }
    }

    /// Executable byte width.
    pub fn byte_width(&self) -> (r: u8)
        ensures
            r as nat == self.spec_byte_width(),
    {
        match self {
            DataType::U8 => 1,
            DataType::I8 => 1,
            DataType::U16 => 2,
            DataType::I16 => 2,
            DataType::U32 => 4,
            DataType::I32 => 4,
            DataType::U64 => 8,
            DataType::I64 => 8,
            DataType::F32 => 4,
            DataType::F64 => 8,
        }
    }

    /// Executable display width.
    pub fn display_width(&self, display: &DisplayType) -> (r: u16)
        ensures
            r as nat == self.spec_display_width(*display),
    {
        match (self, display) {
            (DataType::U8, DisplayType::Decimal) => 3,
            (DataType::I8, DisplayType::Decimal) => 4,
            (DataType::U16, DisplayType::Decimal) => 5,
            (DataType::I16, DisplayType::Decimal) => 6,
            (DataType::U32, DisplayType::Decimal) => 10,
            (DataType::I32, DisplayType::Decimal) => 11,
            (DataType::U64, DisplayType::Decimal) => 20,
            (DataType::I64, DisplayType::Decimal) => 20,
            (DataType::U8, DisplayType::HexaDecimal) => 2,
            (DataType::I8, DisplayType::HexaDecimal) => 2,
            (DataType::U16, DisplayType::HexaDecimal) => 4,
            (DataType::I16, DisplayType::HexaDecimal) => 4,
            (DataType::U32, DisplayType::HexaDecimal) => 8,
            (DataType::I32, DisplayType::HexaDecimal) => 8,
            (DataType::U64, DisplayType::HexaDecimal) => 16,
            (DataType::I64, DisplayType::HexaDecimal) => 16,
            (DataType::F32, DisplayType::Decimal) => 14,
            (DataType::F64, DisplayType::Decimal) => 23,
            (DataType::F32, DisplayType::HexaDecimal) => 4,
            (DataType::F64, DisplayType::HexaDecimal) => 8,
        }
    }

    /// The short label this type is listed under.
    pub fn name(&self) -> (r: &'static str)
        ensures
            r@ == self.spec_name(),
    {
        proof {
            reveal_strlit("U8");
            reveal_strlit("I8");
            reveal_strlit("U16");
            reveal_strlit("I16");
            reveal_strlit("U32");
            reveal_strlit("I32");
            reveal_strlit("U64");
            reveal_strlit("I64");
            reveal_strlit("F32");
            reveal_strlit("F64");
        }
        match self {
            DataType::U8 => "U8",
            DataType::I8 => "I8",
            DataType::U16 => "U16",
            DataType::I16 => "I16",
            DataType::U32 => "U32",
            DataType::I32 => "I32",
            DataType::U64 => "U64",
            DataType::I64 => "I64",
            DataType::F32 => "F32",
            DataType::F64 => "F64",
        }
    }

    /// The label as a character sequence.
    pub open spec fn spec_name(self) -> Seq<char> {
        match self {
            DataType::U8 => seq!['U', '8'],
            DataType::I8 => seq!['I', '8'],
            DataType::U16 => seq!['U', '1', '6'],
            DataType::I16 => seq!['I', '1', '6'],
            DataType::U32 => seq!['U', '3', '2'],
            DataType::I32 => seq!['I', '3', '2'],
            DataType::U64 => seq!['U', '6', '4'],
            DataType::I64 => seq!['I', '6', '4'],
            DataType::F32 => seq!['F', '3', '2'],
            DataType::F64 => seq!['F', '6', '4'],
        }
    }
}

impl Default for DataType {
    /// A fresh viewer starts on unsigned bytes.
    fn default() -> (r: Self)
        ensures
            r == DataType::U8,
    {
        DataType::U8
    }
}

impl Default for DisplayType {
    /// A fresh viewer starts in decimal.
    fn default() -> (r: Self)
        ensures
            r == DisplayType::Decimal,
    {
        DisplayType::Decimal
    }
}

impl Default for Endianness {
    /// A fresh viewer reads multi-byte values little-endian.
    fn default() -> (r: Self)
        ensures
            r == Endianness::Little,
    {
        Endianness::Little
    }
}

} // verus!
