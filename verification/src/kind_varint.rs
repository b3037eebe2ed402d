use crate::text::{decimal, push_char, push_decimal, signed_decimal};
use vstd::prelude::*;

verus! {

/// How the number of a varint field is read.
#[derive(Copy, Clone, Debug, PartialEq, Eq, Structural)]
pub enum KindVarint {
    ZigZag,
    Unsigned,
}

/// The signed number that a ZigZag-encoded `varint` stands for.
///
/// The varint is first read as a signed 128-bit number `s` in two's
/// complement. An even `s` stands for `s / 2`, an odd `s` for `-(s + 1) / 2`,
/// which is `(s >> 1) ^ -(s & 1)` on machine integers.
pub open spec fn zigzag(varint: u128) -> int {
    let s: int = if varint < 0x8000_0000_0000_0000_0000_0000_0000_0000u128 {
        varint as int
    } else {
        varint - 0x1_0000_0000_0000_0000_0000_0000_0000_0000int
    };
    if s % 2 == 0 {
        s / 2
    } else {
        -(s / 2) - 1
    }
}

impl KindVarint {
    /// The kind that follows this one in the cycle of two.
    pub open spec fn next(self) -> KindVarint {
        match self {
            KindVarint::Unsigned => KindVarint::ZigZag,
            KindVarint::ZigZag => KindVarint::Unsigned,
        }
    }

    /// The short name of the kind.
    pub open spec fn label(self) -> Seq<char> {
        match self {
            KindVarint::ZigZag => "zigzag"@,
            KindVarint::Unsigned => "unsign"@,
        }
    }

    /// The text that shows `varint` under this kind.
    pub open spec fn value_text(self, varint: u128) -> Seq<char> {
        match self {
            KindVarint::ZigZag => signed_decimal(zigzag(varint)),
            KindVarint::Unsigned => decimal(varint as nat),
        }
    }

    pub fn toggle(self) -> (r: KindVarint)
        ensures
            r == self.next(),
    {
        match self {
            KindVarint::Unsigned => KindVarint::ZigZag,
            KindVarint::ZigZag => KindVarint::Unsigned,
        }
    }

    pub fn to_string(self) -> (r: &'static str)
        ensures
            r@ == self.label(),
    {
        match self {
            KindVarint::ZigZag => "zigzag",
            KindVarint::Unsigned => "unsign",
        }
    }

    /// Renders `varint` under this kind, in decimal.
    pub fn get_value_as_string(self, varint: u128) -> (r: String)
        ensures
            r@ == self.value_text(varint),
    {
        let mut text = String::new();
        match self {
            KindVarint::ZigZag => {
                let half: u128 = varint / 2;
                let odd: bool = varint % 2 == 1;
                if varint < 0x8000_0000_0000_0000_0000_0000_0000_0000u128 {
                    if odd {
                        push_char(&mut text, '-');
                        push_decimal(&mut text, half + 1);
                    } else {
                        push_decimal(&mut text, half);
                    }
                } else {
                    if odd {
                        let top: u128 = 0x7fff_ffff_ffff_ffff_ffff_ffff_ffff_ffff;
                        push_decimal(&mut text, top - half);
                    } else {
                        push_char(&mut text, '-');
                        let top: u128 = 0x8000_0000_0000_0000_0000_0000_0000_0000;
                        push_decimal(&mut text, top - half);
                    }
                }
                assert(text@ =~= signed_decimal(zigzag(varint)));
            },
            KindVarint::Unsigned => {
                push_decimal(&mut text, varint);
                assert(text@ =~= decimal(varint as nat));
            },
        }
        text
    }

    /// Two toggles bring a kind back to itself, and one toggle does not.
    pub proof fn lemma_toggle_cycle(self)
        ensures
            self.next().next() == self,
            self.next() != self,
    {
    }
}

/// The varint that ZigZag encoding writes for a signed number: twice the
/// number where it is not negative, and one less than twice its magnitude
/// where it is.
pub open spec fn zigzag_encoded(n: int) -> int {
    if n >= 0 {
        2 * n
    } else {
        -2 * n - 1
    }
}

/// ZigZag decoding inverts ZigZag encoding, for every number of up to 127
/// bits.
pub proof fn lemma_zigzag_inverts_encoding(n: int)
    requires
        -0x4000_0000_0000_0000_0000_0000_0000_0000int <= n
            < 0x4000_0000_0000_0000_0000_0000_0000_0000int,
    ensures
        0 <= zigzag_encoded(n) < 0x8000_0000_0000_0000_0000_0000_0000_0000int,
        zigzag(zigzag_encoded(n) as u128) == n,
{
}

/// On machine integers, ZigZag decoding is `(s >> 1) ^ -(s & 1)` with `s` the
/// varint reinterpreted as a signed 128-bit number.
pub proof fn lemma_zigzag_is_shift_xor(varint: u128)
    ensures
        zigzag(varint) == (((varint as i128) >> 1) ^ ((-((varint as i128) & 1)) as i128)) as int,
{
    let s = varint as i128;
    assert(varint < 0x8000_0000_0000_0000_0000_0000_0000_0000u128 ==> s == varint) by (bit_vector)
        requires
            s == varint as i128,
    ;
    assert(varint >= 0x8000_0000_0000_0000_0000_0000_0000_0000u128 ==> s == varint
        - 0x1_0000_0000_0000_0000_0000_0000_0000_0000int) by (bit_vector)
        requires
            s == varint as i128,
    ;
    assert(s % 2 == 0 ==> ((s >> 1) ^ ((-(s & 1)) as i128)) == s / 2) by (bit_vector);
    assert(s % 2 != 0 ==> ((s >> 1) ^ ((-(s & 1)) as i128)) == -(s / 2) - 1) by (bit_vector);
}

} // verus!
