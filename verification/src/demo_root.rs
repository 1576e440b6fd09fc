//! Sample crate-root callables whose dispatch shapes the tests exercise.

use vstd::prelude::*;

use vstd::string::StringExecFns;

verus! {

/// Append `concat` to `base` when it is given, else return `base` itself.
///
/// Default when dispatched: `concat = None`.
pub fn some_root_function(base: &str, concat: Option<&str>) -> (r: String)
    ensures
        r@ == (match concat {
            Some(c) => base@ + c@,
            None => base@,
        }),
{
    let mut s = String::new();
    s.append(base);
    match concat {
        Some(c) => {
            s.append(c);
        },
        None => {
            proof {
                assert(s@ =~= base@);
            }
        },
    }
    s
}

/// A public function with one required and one defaulted parameter; it
/// ignores both.
///
/// Default when dispatched: `input_b = None`.
#[allow(unused_variables)]
pub fn some_public_function(input_a: u8, input_b: Option<usize>) -> (r: bool)
    ensures
        !r,
{
    false
}

} // verus!
