//! A small calculator: a library to index and to try selections on.
use vstd::prelude::*;

use crate::text;
use crate::text::{cat, number};

verus! {

/// The sum of two numbers, which has to fit.
pub fn add(a: i64, b: i64) -> (r: i64)
    requires
        i64::MIN <= a + b <= i64::MAX,
    ensures
        r == a + b,
{
    a + b
}

/// A running total.
pub struct Calc {
    pub total: i64,
}

impl Calc {
    /// Adds `n` to the total, which has to fit.
    pub fn push(&mut self, n: i64)
        requires
            i64::MIN <= old(self).total + n <= i64::MAX,
        ensures
            final(self).total == old(self).total + n,
    {
        self.total = self::add(self.total, n);
    }
}

/// `n` in decimal, with a sign where it is negative.
pub open spec fn signed_decimal(n: int) -> Seq<char> {
    if n < 0 {
        "-"@ + text::decimal((-n) as nat)
    } else {
        text::decimal(n as nat)
    }
}

/// The sum of two numbers, which has to fit, in decimal.
pub fn fmt(a: i64, b: i64) -> (r: String)
    requires
        i64::MIN <= a + b <= i64::MAX,
    ensures
        r@ == signed_decimal(a + b),
{
    let n: i64 = self::add(a, b);
    if n < 0 {
        let m: u64 = (-(n + 1)) as u64 + 1;
        cat("-", number(m).as_str())
    } else {
        number(n as u64)
    }
}

} // verus!
