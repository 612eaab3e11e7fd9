use vstd::prelude::*;
use vstd::std_specs::convert::FromSpec;
use vstd::std_specs::convert::FromSpecImpl;
use vstd::string::StringExecFns;

verus! {

/// A single wire value.
#[derive(Copy, Clone, Debug, PartialEq, Eq, Hash, PartialOrd, Ord, Structural)]
pub enum Bit {
    Zero,
    One,
}

impl Bit {
    /// The number a bit stands for: 0 or 1.
    pub open spec fn value(self) -> nat {
        match self {
            Bit::Zero => 0,
            Bit::One => 1,
        }
    }

    /// The bit that a number stands for: `Zero` for 0, `One` for anything else.
    pub open spec fn of_nat(v: nat) -> Bit {
        if v == 0 {
            Bit::Zero
        } else {
            Bit::One
        }
    }

    /// The bit that a truth value stands for.
    pub open spec fn of_bool(b: bool) -> Bit {
        if b {
            Bit::One
        } else {
            Bit::Zero
        }
    }

    /// Whether the bit is set.
    pub open spec fn is_one(self) -> bool {
        self == Bit::One
    }

    /// `Zero` for 0, `One` for every other number.
    pub fn from_u64(v: u64) -> (bit: Bit)
        ensures
            bit == Bit::of_nat(v as nat),
    {
        if v == 0 {
            Bit::Zero
        } else {
            Bit::One
        }
    }

    /// 0 for `Zero`, 1 for `One`.
    pub fn as_u64(&self) -> (v: u64)
        ensures
            v == self.value(),
    {
        match self {
            Bit::Zero => 0,
            Bit::One => 1,
        }
    }

    /// The digit a bit is written as.
    pub open spec fn digit(self) -> Seq<char> {
        match self {
            Bit::Zero => seq!['0'],
            Bit::One => seq!['1'],
        }
    }

    /// The bit as text: `"0"` or `"1"`.
    pub fn to_string(&self) -> (s: String)
        ensures
            s@ == self.digit(),
    {
        proof {
            reveal_strlit("0");
            reveal_strlit("1");
        }
        let s = match self {
            Bit::Zero => String::from_str("0"),
            Bit::One => String::from_str("1"),
        };
        assert(s@ =~= self.digit());
        s
    }
}

impl From<u64> for Bit {
    fn from(v: u64) -> (bit: Bit) {
        Bit::from_u64(v)
    }
}

impl FromSpecImpl<u64> for Bit {
    open spec fn obeys_from_spec() -> bool {
        true
    }

    open spec fn from_spec(v: u64) -> Bit {
        Bit::of_nat(v as nat)
    }
}

impl From<Bit> for u64 {
    fn from(bit: Bit) -> (v: u64) {
        bit.as_u64()
    }
}

impl FromSpecImpl<Bit> for u64 {
    open spec fn obeys_from_spec() -> bool {
        true
    }

    open spec fn from_spec(bit: Bit) -> u64 {
        bit.value() as u64
    }
}

impl From<bool> for Bit {
    fn from(value: bool) -> (bit: Bit) {
        if value {
            Bit::One
        } else {
            Bit::Zero
        }
    }
}

impl FromSpecImpl<bool> for Bit {
    open spec fn obeys_from_spec() -> bool {
        true
    }

    open spec fn from_spec(value: bool) -> Bit {
        Bit::of_bool(value)
    }
}

impl From<Bit> for bool {
    fn from(bit: Bit) -> (value: bool) {
        match bit {
            Bit::Zero => false,
            Bit::One => true,
        }
    }
}

impl FromSpecImpl<Bit> for bool {
    open spec fn obeys_from_spec() -> bool {
        true
    }

    open spec fn from_spec(bit: Bit) -> bool {
        bit.is_one()
    }
}

/// Every bit survives the trip through a number, and through a truth value.
pub proof fn lemma_bit_round_trips(bit: Bit)
    ensures
        Bit::of_nat(bit.value()) == bit,
        <Bit as FromSpec<u64>>::from_spec(<u64 as FromSpec<Bit>>::from_spec(bit)) == bit,
        <Bit as FromSpec<bool>>::from_spec(<bool as FromSpec<Bit>>::from_spec(bit)) == bit,
{
}

} // verus!
