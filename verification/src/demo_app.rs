//! Sample application callables whose dispatch shapes the tests exercise.

use vstd::prelude::*;

use crate::demo_lib::tdiv;

verus! {

/// A function with one required and one defaulted parameter; it ignores
/// both and returns zero.
///
/// Default when dispatched: `second_item = 0`.
#[allow(unused_variables)]
pub fn asd(first_item: i32, second_item: i32) -> (r: i32)
    ensures
        r == 0,
{
    0
}

/// Exercise the sample callables with a few fixed argument mixes.
pub fn something() {
    let _ = asd(0, 20);
    let _ = asd(1, 0);
    let _ = asd(0, 0);
    exported_function();
}

/// The signed or negated value, shifted by `add`, divided by `div`.
///
/// Defaults when dispatched: `add = 0`, `div = 0`; a dispatched call must
/// override `div`, since dividing by the default is rejected here.
pub fn some_function(sign: bool, value: i32, add: i32, div: i32) -> (r: i32)
    requires
        sign ==> i32::MIN <= value + add <= i32::MAX,
        !sign ==> value != i32::MIN,
        !sign ==> i32::MIN <= 0 - value + add <= i32::MAX,
        div != 0,
        !((if sign {
            value + add
        } else {
            0 - value + add
        }) == i32::MIN && div == -1),
    ensures
        r as int == tdiv(
            if sign {
                value + add
            } else {
                0 - value + add
            },
            div as int,
        ),
{
    let inter: i32 = if sign {
        value + add
    } else {
        0 - value + add
    };
    let q = inter.checked_div(div);
    match q {
        Some(v) => v,
        None => {
            proof {
                crate::demo_lib::lemma_tdiv_i32_range(inter as int, div as int);
                assert(false);
            }
            0
        },
    }
}

/// A sink for a message; it inspects nothing.
#[allow(unused_variables)]
pub fn info(v: &str) {
}

/// A function without parameters: nothing useful is dispatched, but the
/// shape is accepted.
pub fn exported_function() {
}

/// A record without fields whose method is dispatched.
pub struct SomeStruct {}

impl SomeStruct {
    /// A method without parameters beyond the receiver.
    pub fn some_method(&self) {
    }
}

} // verus!
