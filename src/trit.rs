use vstd::prelude::*;

verus! {

/// A balanced ternary digit, worth -1 (`N`), 0 (`Z`) or +1 (`P`).
#[derive(Debug, Copy, Clone, PartialEq, Eq, Structural)]
pub enum Trit {
    N,
    Z,
    P,
}

/// The integer a trit stands for.
pub open spec fn trit_val(t: Trit) -> int {
    match t {
        Trit::N => -1,
        Trit::Z => 0,
        Trit::P => 1,
    }
}

/// The trit worth `v`, for `v` in {-1, 0, 1}.
pub open spec fn trit_of(v: int) -> Trit {
    if v < 0 {
        Trit::N
    } else if v == 0 {
        Trit::Z
    } else {
        Trit::P
    }
}

/// Negation swaps `N` and `P` and fixes `Z`.
pub open spec fn trit_neg(t: Trit) -> Trit {
    match t {
        Trit::N => Trit::P,
        Trit::Z => Trit::Z,
        Trit::P => Trit::N,
    }
}

/// The glyph of a trit in a register dump.
pub open spec fn trit_glyph(t: Trit) -> char {
    match t {
        Trit::N => '-',
        Trit::Z => '0',
        Trit::P => '+',
    }
}

/// The carry out of a balanced full adder whose three inputs sum to `s`.
pub open spec fn carry_of(s: int) -> int {
    if s <= -2 {
        -1
    } else if s >= 2 {
        1
    } else {
        0
    }
}

impl Trit {
    /// The signed value of the trit.
    pub fn to_i8(self) -> (r: i8)
        ensures
            r as int == trit_val(self),
    {
        match self {
            Trit::N => -1,
            Trit::Z => 0,
            Trit::P => 1,
        }
    }

    /// The trit worth `val`; an error unless `val` is -1, 0 or 1.
    pub fn from_i8(val: i8) -> (r: Result<Trit, &'static str>)
        ensures
            r is Ok <==> -1 <= val <= 1,
            r is Ok ==> trit_val(r->Ok_0) == val as int,
    {
        match val {
            -1 => Ok(Trit::N),
            0 => Ok(Trit::Z),
            1 => Ok(Trit::P),
            _ => Err("Invalid integer value for Trit; must be -1, 0, or 1."),
        }
    }

    /// The two-bit binary coded ternary form: `N` is 00, `Z` is 01, `P` is 10.
    pub fn to_bct(self) -> (r: u8)
        ensures
            r as int == trit_val(self) + 1,
    {
        match self {
            Trit::N => 0b00,
            Trit::Z => 0b01,
            Trit::P => 0b10,
        }
    }

    /// The trit whose binary coded ternary form is held in the low two bits of
    /// `bct`; an error when those bits are 11.
    pub fn from_bct(bct: u8) -> (r: Result<Trit, &'static str>)
        ensures
            r is Ok <==> bct % 4 != 3,
            r is Ok ==> trit_val(r->Ok_0) == bct % 4 - 1,
    {
        let low: u8 = bct & 0b11;
        assert(low == bct % 4) by (bit_vector)
            requires
                low == bct & 3u8,
        ;
        match low {
            0b00 => Ok(Trit::N),
            0b01 => Ok(Trit::Z),
            0b10 => Ok(Trit::P),
            _ => Err("Invalid BCT value; must be 00, 01, or 10."),
        }
    }

    /// The glyph shown for the trit: `-`, `0` or `+`.
    pub fn glyph(self) -> (r: char)
        ensures
            r == trit_glyph(self),
    {
        match self {
            Trit::N => '-',
            Trit::Z => '0',
            Trit::P => '+',
        }
    }
}

impl core::ops::Neg for Trit {
    type Output = Trit;

    /// `-t` swaps `N` and `P` and fixes `Z`.
    fn neg(self) -> (r: Trit)
        ensures
            r == trit_neg(self),
    {
        match self {
            Trit::N => Trit::P,
            Trit::Z => Trit::Z,
            Trit::P => Trit::N,
        }
    }
}

impl vstd::std_specs::ops::NegSpecImpl for Trit {
    open spec fn obeys_neg_spec() -> bool {
        true
    }

    open spec fn neg_req(self) -> bool {
        true
    }

    open spec fn neg_spec(self) -> Trit {
        trit_neg(self)
    }
}

impl Default for Trit {
    fn default() -> (r: Trit)
        ensures
            r == Trit::Z,
    {
        Trit::Z
    }
}

/// Balanced full adder: returns the sum trit and the carry out, with
/// `a + b + carry_in == 3 * carry_out + sum`.
pub fn add_trits(a: Trit, b: Trit, carry_in: Trit) -> (r: (Trit, Trit))
    ensures
        trit_val(r.1) == carry_of(trit_val(a) + trit_val(b) + trit_val(carry_in)),
        trit_val(a) + trit_val(b) + trit_val(carry_in) == 3 * trit_val(r.1) + trit_val(r.0),
{
    let sum_val: i8 = a.to_i8() + b.to_i8() + carry_in.to_i8();
    let carry_out_val: i8 = if sum_val <= -2 {
        -1
    } else if sum_val >= 2 {
        1
    } else {
        0
    };
    let sum_trit_val: i8 = sum_val - 3 * carry_out_val;
    let sum_trit = if sum_trit_val < 0 {
        Trit::N
    } else if sum_trit_val == 0 {
        Trit::Z
    } else {
        Trit::P
    };
    let carry_out_trit = if carry_out_val < 0 {
        Trit::N
    } else if carry_out_val == 0 {
        Trit::Z
    } else {
        Trit::P
    };
    (sum_trit, carry_out_trit)
}

} // verus!
