//! The parameter model: a declared callable input, its default (if any), and
//! the ordered parameter list of one callable.

use vstd::prelude::*;

use crate::permute::PermutedItem;
use crate::permute::named_wrap;
use crate::permute::pair_views;
use crate::permute::permute;
use crate::permute::seq_views;
use crate::permute::spec_permute;
use crate::permute::total_count;

verus! {

/// How a parameter obtains a value when the caller omits it.
///
/// A parameter carrying `ParamAttr::NoDefault` has no fallback and is required.
/// The other two variants mark a defaulted parameter: either the type's own
/// zero value is used, or a const expression kept here as source text.
#[derive(Debug)]
pub enum ParamAttr {
    /// No helper attribute: the parameter must always be supplied.
    NoDefault,
    /// Use the type's zero value for initialization.
    Default,
    /// Use a const expression, kept as source text, for initialization.
    Value(String),
}

impl ParamAttr {
    /// True when the attribute marks a required parameter.
    pub open spec fn is_required(self) -> bool {
        self is NoDefault
    }
}

impl Clone for ParamAttr {
    fn clone(&self) -> (res: Self)
        ensures
            res == *self,
    {
        match self {
            ParamAttr::NoDefault => ParamAttr::NoDefault,
            ParamAttr::Default => ParamAttr::Default,
            ParamAttr::Value(expr) => ParamAttr::Value(expr.clone()),
        }
    }
}

/// One declared parameter: its name, the source text of its type, and its
/// default status. The name alone is the identity used for matching.
#[derive(Debug)]
pub struct FunctionParam {
    /// Parameter name; the matching key within a parameter list.
    pub name: String,
    /// Source text of the parameter's type, carried for documentation.
    pub ty: String,
    /// A const that can be used as a default value.
    pub default_value: ParamAttr,
}

impl FunctionParam {
    /// Build a required parameter.
    pub fn required(name: String, ty: String) -> (res: Self)
        ensures
            res.name == name,
            res.ty == ty,
            res.default_value is NoDefault,
    {
        FunctionParam { name, ty, default_value: ParamAttr::NoDefault }
    }

    /// Build a defaulted parameter.
    pub fn defaulted(name: String, ty: String, default_value: ParamAttr) -> (res: Self)
        ensures
            res.name == name,
            res.ty == ty,
            res.default_value == default_value,
    {
        FunctionParam { name, ty, default_value }
    }

    /// True when the parameter has no default.
    pub open spec fn spec_is_required(self) -> bool {
        self.default_value is NoDefault
    }

    /// Runtime check matching [`FunctionParam::spec_is_required`].
    pub fn is_required(&self) -> (res: bool)
        ensures
            res == self.spec_is_required(),
    {
        match self.default_value {
            ParamAttr::NoDefault => true,
            _ => false,
        }
    }
}

impl Clone for FunctionParam {
    fn clone(&self) -> (res: Self)
        ensures
            res == *self,
    {
        FunctionParam {
            name: self.name.clone(),
            ty: self.ty.clone(),
            default_value: self.default_value.clone(),
        }
    }
}

/// Parameter identity is the name alone: two parameters are equal exactly
/// when their names spell the same characters.
impl PartialEq for FunctionParam {
    fn eq(&self, other: &Self) -> bool {
        self.name == other.name
    }
}

impl vstd::std_specs::cmp::PartialEqSpecImpl for FunctionParam {
    open spec fn obeys_eq_spec() -> bool {
        true
    }

    open spec fn eq_spec(&self, other: &Self) -> bool {
        self.name@ == other.name@
    }
}

/// The position of the first defaulted parameter, or the length of the list
/// when every parameter is required.
pub open spec fn split_point(params: Seq<FunctionParam>) -> int
    decreases params.len(),
{
    if params.len() == 0 {
        0
    } else if !params[0].spec_is_required() {
        0
    } else {
        1 + split_point(params.drop_first())
    }
}

/// The contiguous required prefix of the list.
pub open spec fn req_of(params: Seq<FunctionParam>) -> Seq<FunctionParam> {
    params.take(split_point(params))
}

/// What follows the first defaulted parameter, that parameter included.
pub open spec fn def_of(params: Seq<FunctionParam>) -> Seq<FunctionParam> {
    params.skip(split_point(params))
}

/// Every required parameter precedes every defaulted one.
pub open spec fn required_first(params: Seq<FunctionParam>) -> bool {
    forall|i: int, j: int|
        0 <= i < j < params.len() && !(#[trigger] params[i]).spec_is_required() ==> !(
        #[trigger] params[j]).spec_is_required()
}

/// Index of the first required parameter at or past `from`, or `-1`.
pub open spec fn find_required_from(params: Seq<FunctionParam>, from: int) -> int
    decreases params.len() - from,
{
    if from < 0 || from >= params.len() {
        -1
    } else if params[from].spec_is_required() {
        from
    } else {
        find_required_from(params, from + 1)
    }
}

/// Index of the first required parameter standing after the first defaulted
/// one, or `-1` when the list is well ordered.
pub open spec fn first_invalid_spec(params: Seq<FunctionParam>) -> int {
    find_required_from(params, split_point(params) + 1)
}

/// `split_point` is the first index whose parameter has a default.
proof fn lemma_split_first(params: Seq<FunctionParam>, i: int)
    requires
        0 <= i <= params.len(),
        forall|k: int| 0 <= k < i ==> (#[trigger] params[k]).spec_is_required(),
        i < params.len() ==> !params[i].spec_is_required(),
    ensures
        split_point(params) == i,
    decreases i,
{
    if params.len() == 0 {
    } else if i == 0 {
    } else {
        let rest = params.drop_first();
        assert(params[0].spec_is_required());
        assert forall|k: int| 0 <= k < i - 1 implies (#[trigger] rest[k]).spec_is_required() by {
            assert(rest[k] == params[k + 1]);
        }
        assert(i - 1 < rest.len() ==> rest[i - 1] == params[i]);
        lemma_split_first(rest, i - 1);
    }
}

/// `find_required_from` returns the first required index at or past `from`.
proof fn lemma_find_required_at(params: Seq<FunctionParam>, from: int, i: int)
    requires
        0 <= from <= i < params.len(),
        params[i].spec_is_required(),
        forall|k: int| from <= k < i ==> !(#[trigger] params[k]).spec_is_required(),
    ensures
        find_required_from(params, from) == i,
    decreases i - from,
{
    if from == i {
    } else {
        lemma_find_required_at(params, from + 1, i);
    }
}

/// When nothing at or past `from` is required, `find_required_from` is `-1`.
proof fn lemma_find_required_none(params: Seq<FunctionParam>, from: int)
    requires
        0 <= from,
        forall|k: int| from <= k < params.len() ==> !(#[trigger] params[k]).spec_is_required(),
    ensures
        find_required_from(params, from) == -1,
    decreases params.len() - from,
{
    if from < params.len() {
        lemma_find_required_none(params, from + 1);
    }
}

/// The position of the first defaulted parameter of `params`.
fn split_index(params: &Vec<FunctionParam>) -> (i: usize)
    ensures
        i as int == split_point(params@),
        i <= params@.len(),
        forall|k: int| 0 <= k < i ==> (#[trigger] params@[k]).spec_is_required(),
        i < params@.len() ==> !params@[i as int].spec_is_required(),
{
    let mut i: usize = 0;
    while i < params.len()
        invariant
            i <= params@.len(),
            forall|k: int| 0 <= k < i ==> (#[trigger] params@[k]).spec_is_required(),
        decreases params@.len() - i,
    {
        if !params[i].is_required() {
            proof {
                lemma_split_first(params@, i as int);
            }
            return i;
        }
        i += 1;
    }
    proof {
        lemma_split_first(params@, i as int);
    }
    i
}

/// Parsed function parameters: the ordered parameter list of one callable.
pub struct FunctionParams {
    /// The declared parameters, in declaration order.
    pub params: Vec<FunctionParam>,
}

impl FunctionParams {
    /// Wrap an ordered parameter list.
    pub fn new(params: Vec<FunctionParam>) -> (s: Self)
        ensures
            s.params == params,
    {
        FunctionParams { params }
    }

    /// Returns the first non-default item after the first default item, if
    /// any: the first parameter that makes the list break the rule that all
    /// required parameters precede all defaulted ones.
    ///
    /// Returns `None` exactly when the list is well ordered.
    pub fn first_invalid_param(&self) -> (r: Option<&FunctionParam>)
        ensures
            r is Some <==> !required_first(self.params@),
            r is None <==> first_invalid_spec(self.params@) == -1,
            r matches Some(p) ==> first_invalid_spec(self.params@) >= 0 && *p
                == self.params@[first_invalid_spec(self.params@)],
    {
        let ghost ps = self.params@;
        let n = self.params.len();
        let i = split_index(&self.params);
        if i == n {
            proof {
                lemma_find_required_none(ps, i + 1);
            }
            return None;
        }
        let ghost s = i as int;
        let mut j: usize = i + 1;
        while j < n
            invariant
                s + 1 <= j <= n,
                n == ps.len(),
                ps == self.params@,
                s == split_point(ps),
                0 <= s < ps.len(),
                !ps[s].spec_is_required(),
                forall|k: int| s + 1 <= k < j ==> !(#[trigger] ps[k]).spec_is_required(),
            decreases n - j,
        {
            if self.params[j].is_required() {
                proof {
                    lemma_find_required_at(ps, s + 1, j as int);
                    assert(!required_first(ps));
                }
                return Some(&self.params[j]);
            }
            j += 1;
        }
        proof {
            lemma_find_required_none(ps, s + 1);
            assert forall|a: int, b: int|
                0 <= a < b < ps.len() && !(#[trigger] ps[a]).spec_is_required() implies !(
            #[trigger] ps[b]).spec_is_required() by {
                assert(a >= s);
                assert(b >= s + 1);
            }
        }
        None
    }

    /// Generate all permutations of positional and named parameters.
    ///
    /// The list is split into its required prefix and its defaulted suffix,
    /// the full matrix of call shapes is generated, and each shape's two
    /// halves are joined into one slot sequence.
    pub fn permute_params(&self) -> (r: Vec<Vec<PermutedItem>>)
        ensures
            seq_views(r@) == concat_pairs(
                spec_permute(req_of(self.params@), def_of(self.params@)),
            ),
            r@.len() == total_count(req_of(self.params@).len(), def_of(self.params@).len()),
            0 < r@.len(),
            r@[0]@ == named_wrap(req_of(self.params@)) + named_wrap(def_of(self.params@)),
    {
        let ghost ps = self.params@;
        let i = split_index(&self.params);
        let required = crate::permute::take_params(&self.params, i);
        let default = crate::permute::skip_params(&self.params, i);
        let pairs = permute(required, default);
        let ghost pv = pair_views(pairs@);
        let mut r: Vec<Vec<PermutedItem>> = Vec::new();
        let mut k: usize = 0;
        while k < pairs.len()
            invariant
                k <= pairs@.len(),
                pv == pair_views(pairs@),
                pv.len() == pairs@.len(),
                r@.len() == k,
                forall|kk: int|
                    0 <= kk < k ==> (#[trigger] r@[kk])@ == pv[kk].0 + pv[kk].1,
            decreases pairs@.len() - k,
        {
            let mut row = crate::permute::dup_items(&pairs[k].0);
            let mut tail = crate::permute::dup_items(&pairs[k].1);
            row.append(&mut tail);
            proof {
                assert(pv[k as int] == (pairs@[k as int].0@, pairs@[k as int].1@));
            }
            r.push(row);
            k += 1;
        }
        proof {
            let target = concat_pairs(spec_permute(req_of(ps), def_of(ps)));
            assert(pv == spec_permute(req_of(ps), def_of(ps)));
            assert forall|kk: int| 0 <= kk < seq_views(r@).len() implies seq_views(r@)[kk]
                == target[kk] by {
                assert(seq_views(r@)[kk] == r@[kk]@);
            }
            assert(seq_views(r@) =~= target);
            assert(r@[0]@ == pv[0].0 + pv[0].1);
        }
        r
    }
}

/// Each pair of halves joined into one slot sequence.
pub open spec fn concat_pairs(ps: Seq<(Seq<PermutedItem>, Seq<PermutedItem>)>) -> Seq<
    Seq<PermutedItem>,
> {
    Seq::new(ps.len(), |i: int| ps[i].0 + ps[i].1)
}

} // verus!
