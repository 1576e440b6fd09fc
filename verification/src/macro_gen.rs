//! Emitter-facing helpers: the kind of callable a dispatch layer is built
//! for, and the slot selections an emitter consumes for each call shape.

use vstd::prelude::*;

use crate::permute::PermutedItem;

verus! {

/// The kind of callable a dispatch layer is generated for.
#[derive(Clone, Copy, Debug)]
pub enum MacroType {
    /// A standalone function.
    Function,
    /// Struct with named fields.
    Struct,
    /// Tuple struct with unnamed fields.
    StructTuple,
}

/// The doc-link disambiguation prefix of a callable kind.
pub open spec fn doc_prefix_spec(m: MacroType) -> Seq<char> {
    match m {
        MacroType::Function => "fn@"@,
        MacroType::Struct => "struct@"@,
        MacroType::StructTuple => "struct@"@,
    }
}

impl MacroType {
    /// The prefix that disambiguates the wrapped item in doc links.
    pub fn doc_prefix(&self) -> (r: &'static str)
        ensures
            r@ == doc_prefix_spec(*self),
    {
        match self {
            MacroType::Function => "fn@",
            MacroType::Struct => "struct@",
            MacroType::StructTuple => "struct@",
        }
    }
}

/// The slots of `s` that produce tokens in an acceptor pattern: every slot
/// but the omitted defaults, which produce none.
pub open spec fn token_slots(s: Seq<PermutedItem>) -> Seq<PermutedItem> {
    s.filter(|it: PermutedItem| !(it is Default))
}

/// Some slot of `s` is an omitted default.
pub open spec fn has_omitted(s: Seq<PermutedItem>) -> bool {
    exists|i: int| 0 <= i < s.len() && (#[trigger] s[i]) is Default
}

/// The slots of a call shape that appear in its acceptor pattern, in order:
/// omitted defaults contribute no token and are dropped.
pub fn acceptor_slots(variant: &Vec<PermutedItem>) -> (r: Vec<PermutedItem>)
    ensures
        r@ == token_slots(variant@),
{
    let mut r: Vec<PermutedItem> = Vec::new();
    proof {
        reveal(Seq::filter);
        assert(r@ =~= token_slots(variant@.take(0)));
    }
    let mut i: usize = 0;
    while i < variant.len()
        invariant
            i <= variant@.len(),
            r@ == token_slots(variant@.take(i as int)),
        decreases variant@.len() - i,
    {
        match &variant[i] {
            PermutedItem::Default(_) => {},
            _ => {
                r.push(variant[i].clone());
            },
        }
        i += 1;
        proof {
            reveal(Seq::filter);
            let t = variant@.take(i as int);
            assert(t.drop_last() =~= variant@.take(i - 1));
            assert(t.last() == variant@[i - 1]);
            assert(r@ =~= token_slots(t));
        }
    }
    proof {
        assert(variant@.take(variant@.len() as int) == variant@);
    }
    r
}

/// Whether the acceptor pattern of a named-aggregate call shape carries the
/// trailing rest marker: it does exactly when some field is omitted, and the
/// marker is appended once per shape, not once per omitted field.
pub fn needs_rest_marker(variant: &Vec<PermutedItem>) -> (r: bool)
    ensures
        r == has_omitted(variant@),
{
    let mut i: usize = 0;
    while i < variant.len()
        invariant
            i <= variant@.len(),
            forall|k: int| 0 <= k < i ==> !((#[trigger] variant@[k]) is Default),
        decreases variant@.len() - i,
    {
        match &variant[i] {
            PermutedItem::Default(_) => {
                proof {
                    assert(variant@[i as int] is Default);
                }
                return true;
            },
            _ => {},
        }
        i += 1;
    }
    false
}

} // verus!
