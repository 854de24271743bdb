//! Unsigned integers of 256 bits, as far as the pool compares and prints them.
use vstd::prelude::*;

verus! {

/// An unsigned integer of 256 bits: `hi` holds the upper half of its bits,
/// `lo` the lower half.
#[derive(Clone, Copy, Debug, PartialEq, Eq, Structural)]
pub struct U256 {
    pub hi: u128,
    pub lo: u128,
}

impl View for U256 {
    type V = nat;

    open spec fn view(&self) -> nat {
        (self.hi * 0x1_0000_0000_0000_0000_0000_0000_0000_0000int + self.lo) as nat
    }
}

/// The character of the decimal digit `d`.
pub open spec fn digit(d: nat) -> char {
    "0123456789"@[d as int]
}

/// `n` in decimal, without leading zeros.
pub open spec fn decimal(n: nat) -> Seq<char>
    decreases n,
{
    if n < 10 {
        seq![digit(n)]
    } else {
        decimal(n / 10).push(digit(n % 10))
    }
}

/// The upper half of the bits of a number is what is left of its value after
/// division by two to the 128th, the lower half is the rest.
pub proof fn a_number_has_two_halves(a: U256)
    ensures
        a@ / 0x1_0000_0000_0000_0000_0000_0000_0000_0000nat == a.hi,
        a@ % 0x1_0000_0000_0000_0000_0000_0000_0000_0000nat == a.lo,
{
}

/// What is printed of a number reads as that number: it is made of decimal
/// digits, has no leading zero, and its digits, taken from the left, add up to
/// the number.
pub proof fn decimal_reads_as_the_number(n: nat)
    ensures
        decimal(n).len() > 0,
        forall|i: int| 0 <= i < decimal(n).len() ==> '0' <= #[trigger] decimal(n)[i] <= '9',
        decimal(n).len() > 1 ==> decimal(n)[0] != '0',
        decimal(n).fold_left(0int, |value: int, c: char| 10 * value + (c as int - '0' as int))
            == n,
    decreases n,
{
    reveal_strlit("0123456789");
    let f = |value: int, c: char| 10 * value + (c as int - '0' as int);
    let s = decimal(n);
    assert(s.last() as int == '0' as int + n % 10);
    if n < 10 {
        assert(s.drop_last() =~= Seq::empty());
        reveal_with_fuel(Seq::fold_left, 2);
    } else {
        decimal_reads_as_the_number(n / 10);
        assert(s.drop_last() =~= decimal(n / 10));
        assert(s.fold_left(0int, f) == f(s.drop_last().fold_left(0int, f), s.last()));
        assert(s[0] == decimal(n / 10)[0]);
        if decimal(n / 10).len() == 1 {
            if n / 10 >= 10 {
                decimal_reads_as_the_number(n / 10 / 10);
            }
            assert(n / 10 < 10);
            assert(s[0] as int == '0' as int + n / 10);
        }
    }
}

impl U256 {
    pub fn zero() -> (r: Self)
        ensures
            r@ == 0,
            r.hi == 0 && r.lo == 0,
    {
        U256 { hi: 0, lo: 0 }
    }

    pub fn from_u64(x: u64) -> (r: Self)
        ensures
            r@ == x,
            r.hi == 0 && r.lo == x,
    {
        U256 { hi: 0, lo: x as u128 }
    }

    pub fn from_usize(x: usize) -> (r: Self)
        ensures
            r@ == x,
            r.hi == 0 && r.lo == x,
    {
        U256 { hi: 0, lo: x as u128 }
    }

    pub fn less_than(&self, other: &Self) -> (r: bool)
        ensures
            r == (self@ < other@),
            r == (self.hi < other.hi || (self.hi == other.hi && self.lo < other.lo)),
    {
        self.hi < other.hi || (self.hi == other.hi && self.lo < other.lo)
    }

    /// Quotient and remainder of the division by ten.
    fn div_rem_ten(&self) -> (r: (Self, usize))
        ensures
            r.0@ == self@ / 10,
            r.1 == self@ % 10,
    {
        let half: u128 = 0x1_0000_0000_0000_0000;
        let top: u128 = self.hi / 10;
        let first: u128 = (self.hi % 10) * half + self.lo / half;
        let second: u128 = (first % 10) * half + self.lo % half;
        let quotient = U256 { hi: top, lo: (first / 10) * half + second / 10 };
        proof {
            assert(self@ == 10 * quotient@ + second % 10);
        }
        (quotient, (second % 10) as usize)
    }

    /// The number in decimal.
    pub fn to_decimal(&self) -> (r: String)
        ensures
            r@ == decimal(self@),
        decreases self@,
    {
        let (quotient, rest) = self.div_rem_ten();
        let mut out = if quotient.hi == 0 && quotient.lo == 0 {
            String::new()
        } else {
            quotient.to_decimal()
        };
        proof {
            reveal_strlit("0123456789");
        }
        let digits = "0123456789";
        out.append(digits.substring_ascii(rest, rest + 1));
        assert(out@ == decimal(self@));
        out
    }
}

} // verus!
