//! Sample library callables whose dispatch shapes the tests exercise:
//! a function with two required and two defaulted parameters, a struct with
//! defaulted fields, and a tuple struct with defaulted fields.

use vstd::prelude::*;

use vstd::arithmetic::div_mod::lemma_div_basics;
use vstd::arithmetic::div_mod::lemma_div_is_ordered;
use vstd::arithmetic::div_mod::lemma_div_is_ordered_by_denominator;
use vstd::arithmetic::div_mod::lemma_div_nonincreasing;
use vstd::arithmetic::div_mod::lemma_div_pos_is_pos;
use vstd::string::StringExecFns;

verus! {

/// Rust's truncating division of `x` by `d`.
pub open spec fn tdiv(x: int, d: int) -> int {
    if x == 0 {
        0
    } else if x > 0 && d > 0 {
        x / d
    } else if x < 0 && d < 0 {
        (x * -1) / (d * -1)
    } else if x < 0 {
        ((x * -1) / d) * -1
    } else {
        (x / (d * -1)) * -1
    }
}

/// Truncating division of one `i32` range value by another stays in range,
/// except for `i32::MIN / -1`.
pub proof fn lemma_tdiv_i32_range(x: int, d: int)
    requires
        i32::MIN <= x <= i32::MAX,
        i32::MIN <= d <= i32::MAX,
        d != 0,
        !(x == i32::MIN && d == -1),
    ensures
        i32::MIN <= tdiv(x, d) <= i32::MAX,
{
    if x == 0 {
    } else if x > 0 && d > 0 {
        lemma_div_pos_is_pos(x, d);
        lemma_div_nonincreasing(x, d);
    } else if x < 0 && d < 0 {
        let y = x * -1;
        let e = d * -1;
        lemma_div_pos_is_pos(y, e);
        if e == 1 {
            lemma_div_basics(y);
        } else {
            lemma_div_is_ordered_by_denominator(y, 2, e);
            lemma_div_is_ordered(y, 0x8000_0000, 2);
        }
    } else if x < 0 {
        let y = x * -1;
        lemma_div_pos_is_pos(y, d);
        lemma_div_nonincreasing(y, d);
    } else {
        let e = d * -1;
        lemma_div_pos_is_pos(x, e);
        lemma_div_nonincreasing(x, e);
    }
}

/// The intermediate value of [`complex_function`]: the sum or the
/// difference of its two required arguments.
pub open spec fn complex_intermediate(lhs: int, rhs: int, add: bool) -> int {
    if add {
        lhs + rhs
    } else {
        lhs - rhs
    }
}

/// Add or subtract the two required arguments, then divide if asked to.
///
/// Defaults when dispatched: `add = true`, `divide_result_by = None`.
pub fn complex_function(lhs: i32, rhs: i32, add: bool, divide_result_by: Option<i32>) -> (r:
    i32)
    requires
        i32::MIN <= complex_intermediate(lhs as int, rhs as int, add) <= i32::MAX,
        divide_result_by matches Some(d) ==> d != 0 && !(complex_intermediate(
            lhs as int,
            rhs as int,
            add,
        ) == i32::MIN && d == -1),
    ensures
        r as int == (match divide_result_by {
            Some(d) => tdiv(complex_intermediate(lhs as int, rhs as int, add), d as int),
            None => complex_intermediate(lhs as int, rhs as int, add),
        }),
{
    let intermediate: i32 = if add {
        lhs + rhs
    } else {
        lhs - rhs
    };
    match divide_result_by {
        Some(div) => {
            let q = intermediate.checked_div(div);
            match q {
                Some(v) => v,
                None => {
                    proof {
                        lemma_tdiv_i32_range(intermediate as int, div as int);
                        assert(false);
                    }
                    0
                },
            }
        },
        None => intermediate,
    }
}

/// Append `concat` to `base` when it is given, else return `base` itself.
///
/// Default when dispatched: `concat = None`.
pub fn some_root_function(base: &str, concat: Option<&str>) -> (r: String)
    ensures
        r@ == (match concat {
            Some(c) => base@ + c@,
            None => base@,
        }),
{
    let _ = complex_function(1, 2, true, Option::None);
    let _ = complex_function(2, 2, true, Option::None);
    let mut s = String::new();
    s.append(base);
    match concat {
        Some(c) => {
            s.append(c);
        },
        None => {
            proof {
                assert(s@ =~= base@);
            }
        },
    }
    s
}

/// It is possible to dispatch functions without any parameters, but nothing
/// useful is generated.
pub fn no_params() {
}

/// Mask the base value with a mask and shift the result right by `r_shift`
/// bits. Returns `true` if the LSB of the result is set, `false` otherwise.
///
/// Default when dispatched: `r_shift = 0`.
pub fn nested_inner_function(base: u8, mask: u8, r_shift: u8) -> (r: bool)
    requires
        r_shift < 8,
    ensures
        r == (((base & mask) >> r_shift) & 1 != 0),
{
    let inter = base & mask;
    let shifted = inter >> r_shift;
    let _unit = no_params();
    shifted & 1 != 0
}

/// A record with one required field and two defaulted fields.
///
/// Defaults when dispatched: `offset = 0`, `inner` empty.
pub struct DefaultStruct {
    /// Base position looked up by [`DefaultStruct::value_at`].
    pub index: usize,
    /// Offset added to the base position.
    pub offset: usize,
    /// The bytes the lookup reads.
    pub inner: Vec<u8>,
}

impl DefaultStruct {
    /// Get the value at the index + offset.
    pub fn value_at(&self) -> (r: Option<u8>)
        requires
            self.index + self.offset <= usize::MAX,
        ensures
            r == (if self.index + self.offset < self.inner@.len() {
                Some(self.inner@[self.index + self.offset])
            } else {
                Option::<u8>::None
            }),
    {
        let pos = self.index + self.offset;
        if pos < self.inner.len() {
            Some(self.inner[pos])
        } else {
            None
        }
    }
}

/// A tuple record with one required field and two defaulted fields.
///
/// Defaults when dispatched: `0` and `'a'`.
#[derive(PartialEq, Eq, Structural, Debug)]
pub struct DefaultTupleStruct(pub usize, pub usize, pub char);

} // verus!
