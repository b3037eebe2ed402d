use vstd::prelude::*;

verus! {

/// How the payload of a field is framed on the wire.
#[derive(Debug, Clone, Copy, PartialEq, Eq, Structural)]
pub enum WireType {
    Varint,
    Size64,
    LengthDelimited,
    StartGroup,
    EndGroup,
    Size32,
    Invalid,
}

impl WireType {
    /// The wire type that a three-bit code stands for.
    pub open spec fn of_code(code: int) -> WireType {
        if code == 0 {
            WireType::Varint
        } else if code == 1 {
            WireType::Size64
        } else if code == 2 {
            WireType::LengthDelimited
        } else if code == 3 {
            WireType::StartGroup
        } else if code == 4 {
            WireType::EndGroup
        } else if code == 5 {
            WireType::Size32
        } else {
            WireType::Invalid
        }
    }
}

impl From<u128> for WireType {
    /// The wire type of a code. The codes 0 to 5 name the six wire types of
    /// the format; every other number gives `Invalid`.
    fn from(val: u128) -> (r: WireType)
        ensures
            r == WireType::of_code(val as int),
    {
        match val {
            0 => WireType::Varint,
            1 => WireType::Size64,
            2 => WireType::LengthDelimited,
            3 => WireType::StartGroup,
            4 => WireType::EndGroup,
            5 => WireType::Size32,
            _ => WireType::Invalid,
        }
    }
}

impl vstd::std_specs::convert::FromSpecImpl<u128> for WireType {
    open spec fn obeys_from_spec() -> bool {
        true
    }

    open spec fn from_spec(val: u128) -> WireType {
        WireType::of_code(val as int)
    }
}

} // verus!
