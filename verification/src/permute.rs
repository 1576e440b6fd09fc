//! Permutation generation for positional and named parameters.
//!
//! The functions here enumerate every acceptable call shape for a parameter
//! list: positional prefixes in declaration order, named arguments in every
//! ordering, and defaulted parameters that are either named or omitted.

use vstd::prelude::*;

use crate::fact;
use crate::params::FunctionParam;

verus! {

/// A single permuted item: one parameter's role within one call shape.
#[derive(Debug)]
pub enum PermutedItem {
    /// Item is positional with no identifier.
    Positional(FunctionParam),
    /// Item is named with an identifier.
    Named(FunctionParam),
    /// Item is omitted by the caller and takes its default value.
    Default(FunctionParam),
}

/// The parameter carried by a permuted item, whatever its role.
pub open spec fn inner_of(it: PermutedItem) -> FunctionParam {
    match it {
        PermutedItem::Positional(p) => p,
        PermutedItem::Named(p) => p,
        PermutedItem::Default(p) => p,
    }
}

impl Clone for PermutedItem {
    fn clone(&self) -> (res: Self)
        ensures
            res == *self,
    {
        match self {
            PermutedItem::Positional(p) => PermutedItem::Positional(p.clone()),
            PermutedItem::Named(p) => PermutedItem::Named(p.clone()),
            PermutedItem::Default(p) => PermutedItem::Default(p.clone()),
        }
    }
}

/// Two permuted items compare equal when they carry the same parameter,
/// whatever role each one assigns to it.
impl PartialEq for PermutedItem {
    fn eq(&self, other: &Self) -> bool {
        self.inner() == other.inner()
    }
}

impl vstd::std_specs::cmp::PartialEqSpecImpl for PermutedItem {
    open spec fn obeys_eq_spec() -> bool {
        true
    }

    open spec fn eq_spec(&self, other: &Self) -> bool {
        inner_of(*self).name@ == inner_of(*other).name@
    }
}

impl PermutedItem {
    /// Get the inner value.
    pub fn inner(&self) -> (res: &FunctionParam)
        ensures
            *res == inner_of(*self),
    {
        match self {
            PermutedItem::Positional(p) => p,
            PermutedItem::Named(p) => p,
            PermutedItem::Default(p) => p,
        }
    }
}

/// Wrap each parameter of `s` as a positional slot.
pub open spec fn positional_wrap(s: Seq<FunctionParam>) -> Seq<PermutedItem> {
    s.map_values(|p: FunctionParam| PermutedItem::Positional(p))
}

/// Wrap each parameter of `s` as a named slot.
pub open spec fn named_wrap(s: Seq<FunctionParam>) -> Seq<PermutedItem> {
    s.map_values(|p: FunctionParam| PermutedItem::Named(p))
}

/// Wrap each parameter of `s` as an omitted-default slot.
pub open spec fn default_wrap(s: Seq<FunctionParam>) -> Seq<PermutedItem> {
    s.map_values(|p: FunctionParam| PermutedItem::Default(p))
}

/// The views of a list of slot vectors.
pub open spec fn seq_views(rs: Seq<Vec<PermutedItem>>) -> Seq<Seq<PermutedItem>> {
    rs.map_values(|v: Vec<PermutedItem>| v@)
}

/// The order `[0, 1, .., n - 1]`.
pub open spec fn identity_order(n: nat) -> Seq<usize> {
    Seq::new(n, |i: int| i as usize)
}

/// `ord` rearranges the positions `0 .. n`: it has length `n`, stays within
/// bounds, and reaches every position.
pub open spec fn is_order(ord: Seq<usize>, n: nat) -> bool {
    &&& ord.len() == n
    &&& forall|j: int| 0 <= j < n ==> (#[trigger] ord[j]) < n
    &&& forall|v: usize| v < n ==> #[trigger] ord.contains(v)
}

/// The fixed table of all orderings of `n` positions, in the order the
/// library receives them.
pub uninterp spec fn perm_table(n: nat) -> Seq<Seq<usize>>;

/// The facts this library uses of `perm_table(n)`; they hold at every call
/// of the function that produces the table.
pub open spec fn perm_facts(n: nat) -> bool {
    &&& perm_table(n).len() == fact(n)
    &&& 0 < perm_table(n).len()
    &&& perm_table(n)[0] == identity_order(n)
    &&& forall|k: int| 0 <= k < perm_table(n).len() ==> is_order(#[trigger] perm_table(n)[k], n)
}

/// Relies on `permute::permute` (Heap's algorithm): called on the positions
/// `0 .. n` it returns all `n!` orderings of them, in a deterministic order,
/// the untouched input order first, each row a rearrangement of `0 .. n`.
#[verifier::external_body]
fn index_permutations(n: usize) -> (r: Vec<Vec<usize>>)
    ensures
        r@.map_values(|v: Vec<usize>| v@) == perm_table(n as nat),
        r@.len() == fact(n as nat),
        0 < r@.len(),
        r@[0]@ == identity_order(n as nat),
        forall|k: int| 0 <= k < r@.len() ==> is_order((#[trigger] r@[k])@, n as nat),
{
    permute::permute((0..n).collect())
}

/// Fetch the ordering table for `n` positions and record what holds of it.
fn ordering_table(n: usize) -> (r: Vec<Vec<usize>>)
    ensures
        r@.map_values(|v: Vec<usize>| v@) == perm_table(n as nat),
        perm_facts(n as nat),
{
    let r = index_permutations(n);
    proof {
        let tbl = perm_table(n as nat);
        let vs = r@.map_values(|v: Vec<usize>| v@);
        assert(tbl[0] == vs[0]);
        assert(forall|k: int| 0 <= k < tbl.len() ==> tbl[k] == vs[k]);
    }
    r
}

/// `items` reordered by `ord`: position `j` holds `items[ord[j]]`.
pub open spec fn apply_order_spec(items: Seq<FunctionParam>, ord: Seq<usize>) -> Seq<
    FunctionParam,
> {
    Seq::new(ord.len(), |j: int| items[ord[j] as int])
}

/// Reorder `items` by the positions in `ord`.
fn apply_order(items: &Vec<FunctionParam>, ord: &Vec<usize>) -> (r: Vec<FunctionParam>)
    requires
        forall|j: int| 0 <= j < ord@.len() ==> (#[trigger] ord@[j]) < items@.len(),
    ensures
        r@ == apply_order_spec(items@, ord@),
{
    let mut r: Vec<FunctionParam> = Vec::new();
    let mut j: usize = 0;
    while j < ord.len()
        invariant
            j <= ord@.len(),
            forall|jj: int| 0 <= jj < ord@.len() ==> (#[trigger] ord@[jj]) < items@.len(),
            r@ == apply_order_spec(items@, ord@.take(j as int)),
        decreases ord@.len() - j,
    {
        let pos = ord[j];
        r.push(items[pos].clone());
        j += 1;
        proof {
            assert(r@ =~= apply_order_spec(items@, ord@.take(j as int)));
        }
    }
    proof {
        assert(ord@.take(ord@.len() as int) == ord@);
    }
    r
}

/// Copy a vector of slots.
pub(crate) fn dup_items(v: &Vec<PermutedItem>) -> (r: Vec<PermutedItem>)
    ensures
        r@ == v@,
{
    let mut r: Vec<PermutedItem> = Vec::new();
    let mut i: usize = 0;
    while i < v.len()
        invariant
            i <= v@.len(),
            r@ == v@.take(i as int),
        decreases v@.len() - i,
    {
        r.push(v[i].clone());
        i += 1;
        proof {
            assert(r@ =~= v@.take(i as int));
        }
    }
    proof {
        assert(v@.take(v@.len() as int) == v@);
    }
    r
}

/// Wrap every parameter of `v` as a named slot.
fn wrap_named(v: &Vec<FunctionParam>) -> (r: Vec<PermutedItem>)
    ensures
        r@ == named_wrap(v@),
{
    let mut r: Vec<PermutedItem> = Vec::new();
    let mut i: usize = 0;
    while i < v.len()
        invariant
            i <= v@.len(),
            r@ == named_wrap(v@.take(i as int)),
        decreases v@.len() - i,
    {
        r.push(PermutedItem::Named(v[i].clone()));
        i += 1;
        proof {
            assert(r@ =~= named_wrap(v@.take(i as int)));
        }
    }
    proof {
        assert(v@.take(v@.len() as int) == v@);
    }
    r
}

/// Wrap every parameter of `v` as a positional slot.
fn wrap_positional(v: &Vec<FunctionParam>) -> (r: Vec<PermutedItem>)
    ensures
        r@ == positional_wrap(v@),
{
    let mut r: Vec<PermutedItem> = Vec::new();
    let mut i: usize = 0;
    while i < v.len()
        invariant
            i <= v@.len(),
            r@ == positional_wrap(v@.take(i as int)),
        decreases v@.len() - i,
    {
        r.push(PermutedItem::Positional(v[i].clone()));
        i += 1;
        proof {
            assert(r@ =~= positional_wrap(v@.take(i as int)));
        }
    }
    proof {
        assert(v@.take(v@.len() as int) == v@);
    }
    r
}

/// Wrap every parameter of `v` as an omitted-default slot.
fn wrap_default(v: &Vec<FunctionParam>) -> (r: Vec<PermutedItem>)
    ensures
        r@ == default_wrap(v@),
{
    let mut r: Vec<PermutedItem> = Vec::new();
    let mut i: usize = 0;
    while i < v.len()
        invariant
            i <= v@.len(),
            r@ == default_wrap(v@.take(i as int)),
        decreases v@.len() - i,
    {
        r.push(PermutedItem::Default(v[i].clone()));
        i += 1;
        proof {
            assert(r@ =~= default_wrap(v@.take(i as int)));
        }
    }
    proof {
        assert(v@.take(v@.len() as int) == v@);
    }
    r
}

/// Some slot of `v` carries a parameter spelling the name `nm`.
pub open spec fn has_slot_named(v: Seq<PermutedItem>, nm: Seq<char>) -> bool {
    exists|i: int| 0 <= i < v.len() && (#[trigger] inner_of(v[i])).name@ == nm
}

/// The call shape `variant` spans the parameter list `params`: one slot per
/// parameter, and every parameter's name appears on some slot.
pub open spec fn variant_covers(variant: Seq<PermutedItem>, params: Seq<FunctionParam>) -> bool {
    &&& variant.len() == params.len()
    &&& forall|j: int|
        0 <= j < params.len() ==> has_slot_named(variant, (#[trigger] params[j]).name@)
}

/// Every row of `rs` spans the parameter list `params`.
pub open spec fn all_covered(rs: Seq<Seq<PermutedItem>>, params: Seq<FunctionParam>) -> bool {
    forall|k: int| 0 <= k < rs.len() ==> variant_covers(#[trigger] rs[k], params)
}

/// A named slot appears in `a + b` wherever it appears in `a` or in `b`.
proof fn lemma_has_slot_concat(a: Seq<PermutedItem>, b: Seq<PermutedItem>, nm: Seq<char>)
    requires
        has_slot_named(a, nm) || has_slot_named(b, nm),
    ensures
        has_slot_named(a + b, nm),
{
    if has_slot_named(a, nm) {
        let i = choose|i: int| 0 <= i < a.len() && (#[trigger] inner_of(a[i])).name@ == nm;
        assert(inner_of((a + b)[i]).name@ == nm);
    } else {
        let i = choose|i: int| 0 <= i < b.len() && (#[trigger] inner_of(b[i])).name@ == nm;
        assert(inner_of((a + b)[a.len() + i]).name@ == nm);
    }
}

/// Wrapping a list in one slot kind covers the list itself.
proof fn lemma_covers_wrap(s: Seq<FunctionParam>)
    ensures
        variant_covers(positional_wrap(s), s),
        variant_covers(named_wrap(s), s),
        variant_covers(default_wrap(s), s),
{
    assert forall|j: int| 0 <= j < s.len() implies has_slot_named(
        positional_wrap(s),
        (#[trigger] s[j]).name@,
    ) by {
        assert(inner_of(positional_wrap(s)[j]).name@ == s[j].name@);
    }
    assert forall|j: int| 0 <= j < s.len() implies has_slot_named(
        named_wrap(s),
        (#[trigger] s[j]).name@,
    ) by {
        assert(inner_of(named_wrap(s)[j]).name@ == s[j].name@);
    }
    assert forall|j: int| 0 <= j < s.len() implies has_slot_named(
        default_wrap(s),
        (#[trigger] s[j]).name@,
    ) by {
        assert(inner_of(default_wrap(s)[j]).name@ == s[j].name@);
    }
}

/// Naming a rearrangement of `s` covers `s`.
proof fn lemma_covers_named_perm(s: Seq<FunctionParam>, ord: Seq<usize>)
    requires
        is_order(ord, s.len()),
        s.len() <= usize::MAX,
    ensures
        variant_covers(named_wrap(apply_order_spec(s, ord)), s),
{
    let v = named_wrap(apply_order_spec(s, ord));
    assert forall|j: int| 0 <= j < s.len() implies has_slot_named(
        v,
        (#[trigger] s[j]).name@,
    ) by {
        let ju = j as usize;
        assert(0 <= j < s.len());
        assert(ord.contains(ju));
        let i = ord.index_of(ju);
        assert(0 <= i < ord.len() && ord[i] == ju);
        assert(ord[i] as int == j);
        assert(apply_order_spec(s, ord)[i] == s[j]);
        assert(inner_of(v[i]).name@ == s[j].name@);
    }
}

/// Covering two lists side by side covers their concatenation.
proof fn lemma_covers_concat(
    a: Seq<PermutedItem>,
    pa: Seq<FunctionParam>,
    b: Seq<PermutedItem>,
    pb: Seq<FunctionParam>,
)
    requires
        variant_covers(a, pa),
        variant_covers(b, pb),
    ensures
        variant_covers(a + b, pa + pb),
{
    assert forall|j: int| 0 <= j < (pa + pb).len() implies has_slot_named(
        a + b,
        (#[trigger] (pa + pb)[j]).name@,
    ) by {
        if j < pa.len() {
            assert((pa + pb)[j] == pa[j]);
            lemma_has_slot_concat(a, b, pa[j].name@);
        } else {
            assert((pa + pb)[j] == pb[j - pa.len()]);
            lemma_has_slot_concat(a, b, pb[j - pa.len()].name@);
        }
    }
}

/// All orderings of `s`, each wrapped as named slots: row `i` follows
/// ordering `i` of the table.
pub open spec fn named_matrix(s: Seq<FunctionParam>) -> Seq<Seq<PermutedItem>> {
    perm_table(s.len()).map_values(|ord: Seq<usize>| named_wrap(apply_order_spec(s, ord)))
}

/// Perform permutations of all items in a slice.
/// All items will be wrapped as named slots.
///
/// The first row keeps the original order of the input.
pub fn permute_named(named: &Vec<FunctionParam>) -> (r: Vec<Vec<PermutedItem>>)
    ensures
        seq_views(r@) == named_matrix(named@),
        perm_facts(named@.len()),
        r@.len() == fact(named@.len()),
        0 < r@.len(),
        r@[0]@ == named_wrap(named@),
        all_covered(seq_views(r@), named@),
{
    let n = named.len();
    let orders = ordering_table(n);
    let ghost tbl = perm_table(named@.len());
    let mut r: Vec<Vec<PermutedItem>> = Vec::new();
    let mut k: usize = 0;
    while k < orders.len()
        invariant
            k <= orders@.len(),
            orders@.map_values(|v: Vec<usize>| v@) == tbl,
            tbl == perm_table(named@.len()),
            perm_facts(named@.len()),
            r@.len() == k,
            forall|i: int|
                0 <= i < k ==> (#[trigger] r@[i])@ == named_wrap(
                    apply_order_spec(named@, tbl[i]),
                ),
            forall|i: int| 0 <= i < k ==> variant_covers((#[trigger] r@[i])@, named@),
        decreases orders@.len() - k,
    {
        proof {
            assert(orders@[k as int]@ == tbl[k as int]);
            assert(is_order(tbl[k as int], named@.len()));
            assert(named@.len() == named.len());
            lemma_covers_named_perm(named@, tbl[k as int]);
        }
        let applied = apply_order(named, &orders[k]);
        let row = wrap_named(&applied);
        r.push(row);
        k += 1;
    }
    proof {
        assert(seq_views(r@) =~= named_matrix(named@));
        assert(tbl[0] == identity_order(named@.len()));
        assert(apply_order_spec(named@, identity_order(named@.len())) =~= named@);
        assert(r@[0]@ == named_wrap(named@));
        assert forall|k: int| 0 <= k < seq_views(r@).len() implies variant_covers(
            #[trigger] seq_views(r@)[k],
            named@,
        ) by {
            assert(seq_views(r@)[k] == r@[k]@);
        }
    }
    r
}

/// The views of a list of mask vectors.
pub open spec fn mask_views(rs: Seq<Vec<bool>>) -> Seq<Seq<bool>> {
    Seq::new(rs.len(), |i: int| rs[i]@)
}

/// Every mask of `s` extended by the entry `b`.
pub open spec fn pushed(s: Seq<Seq<bool>>, b: bool) -> Seq<Seq<bool>> {
    Seq::new(s.len(), |i: int| s[i].push(b))
}

/// The subset masks over `m` defaulted parameters, in the order the engine
/// walks them: the all-used mask first, the all-omitted mask last.
pub open spec fn masks(m: nat) -> Seq<Seq<bool>>
    decreases m,
{
    if m == 0 {
        seq![Seq::<bool>::empty()]
    } else {
        pushed(masks((m - 1) as nat), true) + pushed(masks((m - 1) as nat), false)
    }
}

/// The mask marking every parameter as used.
pub open spec fn all_true(m: nat) -> Seq<bool> {
    Seq::new(m, |i: int| true)
}

/// Number of `true` entries in a mask.
pub open spec fn ones(mk: Seq<bool>) -> nat
    decreases mk.len(),
{
    if mk.len() == 0 {
        0
    } else {
        ones(mk.drop_last()) + if mk.last() {
            1nat
        } else {
            0nat
        }
    }
}

/// Shape facts of the mask table.
proof fn lemma_masks_facts(m: nat)
    ensures
        0 < masks(m).len(),
        masks(m)[0] == all_true(m),
        forall|k: int| 0 <= k < masks(m).len() ==> (#[trigger] masks(m)[k]).len() == m,
    decreases m,
{
    if m == 0 {
        assert(masks(0)[0] =~= all_true(0));
    } else {
        lemma_masks_facts((m - 1) as nat);
        let prev = masks((m - 1) as nat);
        let cur = masks(m);
        assert(cur[0] == pushed(prev, true)[0]);
        assert(cur[0] == prev[0].push(true));
        assert(prev[0].push(true) =~= all_true(m));
        assert forall|k: int| 0 <= k < cur.len() implies (#[trigger] cur[k]).len() == m by {
            if k < prev.len() {
                assert(cur[k] == prev[k].push(true));
            } else {
                assert(cur[k] == prev[k - prev.len()].push(false));
            }
        }
    }
}

/// The parameters of `defs` whose mask entry is `true`, in order.
pub open spec fn used_of(defs: Seq<FunctionParam>, mk: Seq<bool>) -> Seq<FunctionParam>
    decreases defs.len(),
{
    if defs.len() == 0 {
        Seq::empty()
    } else {
        used_of(defs.drop_last(), mk.drop_last()) + if mk.len() > 0 && mk.last() {
            seq![defs.last()]
        } else {
            Seq::empty()
        }
    }
}

/// The parameters of `defs` whose mask entry is `false`, in order.
pub open spec fn unused_of(defs: Seq<FunctionParam>, mk: Seq<bool>) -> Seq<FunctionParam>
    decreases defs.len(),
{
    if defs.len() == 0 {
        Seq::empty()
    } else {
        unused_of(defs.drop_last(), mk.drop_last()) + if mk.len() > 0 && !mk.last() {
            seq![defs.last()]
        } else {
            Seq::empty()
        }
    }
}

/// Lengths of the two mask selections.
proof fn lemma_select_lens(defs: Seq<FunctionParam>, mk: Seq<bool>)
    requires
        mk.len() == defs.len(),
    ensures
        used_of(defs, mk).len() == ones(mk),
        used_of(defs, mk).len() + unused_of(defs, mk).len() == defs.len(),
    decreases defs.len(),
{
    if defs.len() > 0 {
        lemma_select_lens(defs.drop_last(), mk.drop_last());
    }
}

/// Each parameter lands in the selection its mask entry points to.
proof fn lemma_select_contains(defs: Seq<FunctionParam>, mk: Seq<bool>)
    requires
        mk.len() == defs.len(),
    ensures
        forall|j: int|
            0 <= j < defs.len() ==> if mk[j] {
                used_of(defs, mk).contains(#[trigger] defs[j])
            } else {
                unused_of(defs, mk).contains(defs[j])
            },
    decreases defs.len(),
{
    if defs.len() > 0 {
        let d0 = defs.drop_last();
        let m0 = mk.drop_last();
        lemma_select_contains(d0, m0);
        assert forall|j: int|
            0 <= j < defs.len() implies if mk[j] {
            used_of(defs, mk).contains(#[trigger] defs[j])
        } else {
            unused_of(defs, mk).contains(defs[j])
        } by {
            if j < defs.len() - 1 {
                assert(d0[j] == defs[j] && m0[j] == mk[j]);
                if mk[j] {
                    let i = used_of(d0, m0).index_of(defs[j]);
                    assert(used_of(defs, mk)[i] == defs[j]);
                } else {
                    let i = unused_of(d0, m0).index_of(defs[j]);
                    assert(unused_of(defs, mk)[i] == defs[j]);
                }
            } else {
                if mk[j] {
                    assert(used_of(defs, mk).last() == defs[j]);
                } else {
                    assert(unused_of(defs, mk).last() == defs[j]);
                }
            }
        }
    }
}

/// Under the all-used mask everything is selected, in order.
proof fn lemma_select_all_true(defs: Seq<FunctionParam>)
    ensures
        used_of(defs, all_true(defs.len())) == defs,
        unused_of(defs, all_true(defs.len())).len() == 0,
    decreases defs.len(),
{
    if defs.len() == 0 {
        assert(used_of(defs, all_true(0)) =~= defs);
    } else {
        let mk = all_true(defs.len());
        assert(mk.drop_last() =~= all_true(defs.drop_last().len()));
        lemma_select_all_true(defs.drop_last());
        assert(used_of(defs, mk) =~= defs);
    }
}

/// The call shapes of one used/omitted subset choice: every ordering of the
/// used parameters as named slots, the omitted ones appended in declaration
/// order.
pub open spec fn subset_block(defs: Seq<FunctionParam>, mk: Seq<bool>) -> Seq<
    Seq<PermutedItem>,
> {
    let u = used_of(defs, mk);
    let x = unused_of(defs, mk);
    perm_table(u.len()).map_values(
        |ord: Seq<usize>| named_wrap(apply_order_spec(u, ord)) + default_wrap(x),
    )
}

/// The blocks of all masks in `mks`, concatenated in order.
pub open spec fn subset_blocks(defs: Seq<FunctionParam>, mks: Seq<Seq<bool>>) -> Seq<
    Seq<PermutedItem>,
>
    decreases mks.len(),
{
    if mks.len() == 0 {
        Seq::empty()
    } else {
        subset_blocks(defs, mks.drop_last()) + subset_block(defs, mks.last())
    }
}

/// Total length of the blocks of the masks in `mks`.
pub open spec fn blocks_len(mks: Seq<Seq<bool>>) -> nat
    decreases mks.len(),
{
    if mks.len() == 0 {
        0
    } else {
        blocks_len(mks.drop_last()) + fact(ones(mks.last()))
    }
}

/// The full named/omitted permutation family of the defaulted parameters.
pub open spec fn default_matrix(defs: Seq<FunctionParam>) -> Seq<Seq<PermutedItem>> {
    if defs.len() == 0 {
        Seq::empty()
    } else {
        subset_blocks(defs, masks(defs.len()))
    }
}

/// Number of shapes in the named/omitted family of `m` defaulted parameters.
pub open spec fn default_count(m: nat) -> nat {
    if m == 0 {
        0
    } else {
        blocks_len(masks(m))
    }
}

/// Binomial coefficient: subsets of size `k` among `n` items.
pub open spec fn binom(n: nat, k: nat) -> nat
    decreases n,
{
    if k == 0 {
        1
    } else if n == 0 {
        0
    } else {
        binom((n - 1) as nat, (k - 1) as nat) + binom((n - 1) as nat, k)
    }
}

/// Partial sum `binom(m, 0) * fact(k) + .. + binom(m, u) * fact(u + k)`.
pub open spec fn bf_partial(m: nat, k: nat, u: nat) -> nat
    decreases u,
{
    if u == 0 {
        binom(m, 0) * fact(k)
    } else {
        bf_partial(m, k, (u - 1) as nat) + binom(m, u) * fact(u + k)
    }
}

/// `Σ over the subset sizes s = 0 ..= m of binom(m, s) * fact(s)`: one
/// ordering count per subset of the defaulted parameters.
pub open spec fn subset_fact_sum(m: nat) -> nat {
    bf_partial(m, 0, m)
}

/// Total factorial weight of a mask list, each mask's count of used
/// parameters shifted by `k`.
spec fn gs(mks: Seq<Seq<bool>>, k: nat) -> nat
    decreases mks.len(),
{
    if mks.len() == 0 {
        0
    } else {
        gs(mks.drop_last(), k) + fact(ones(mks.last()) + k)
    }
}

/// The double-sided recursion of the mask weights.
spec fn sumbf(m: nat, k: nat) -> nat
    decreases m,
{
    if m == 0 {
        fact(k)
    } else {
        sumbf((m - 1) as nat, (k + 1) as nat) + sumbf((m - 1) as nat, k)
    }
}

/// `blocks_len` is the unshifted mask weight.
proof fn lemma_blocks_len_gs(mks: Seq<Seq<bool>>)
    ensures
        blocks_len(mks) == gs(mks, 0),
    decreases mks.len(),
{
    if mks.len() > 0 {
        lemma_blocks_len_gs(mks.drop_last());
    }
}

/// Mask weights add over concatenation.
proof fn lemma_gs_concat(a: Seq<Seq<bool>>, b: Seq<Seq<bool>>, k: nat)
    ensures
        gs(a + b, k) == gs(a, k) + gs(b, k),
    decreases b.len(),
{
    if b.len() == 0 {
        assert(a + b =~= a);
    } else {
        assert((a + b).drop_last() =~= a + b.drop_last());
        assert((a + b).last() == b.last());
        lemma_gs_concat(a, b.drop_last(), k);
    }
}

/// Extending a mask by one entry adjusts its used count by that entry.
proof fn lemma_ones_push(mk: Seq<bool>, b: bool)
    ensures
        ones(mk.push(b)) == ones(mk) + if b {
            1nat
        } else {
            0nat
        },
{
    assert(mk.push(b).drop_last() =~= mk);
    assert(mk.push(b).last() == b);
}

/// Extending every mask by one entry shifts the weight.
proof fn lemma_gs_pushed(a: Seq<Seq<bool>>, b: bool, k: nat)
    ensures
        gs(pushed(a, b), k) == gs(
            a,
            k + if b {
                1nat
            } else {
                0nat
            },
        ),
    decreases a.len(),
{
    if a.len() == 0 {
    } else {
        assert(pushed(a, b).drop_last() =~= pushed(a.drop_last(), b));
        assert(pushed(a, b).last() == a.last().push(b));
        lemma_ones_push(a.last(), b);
        lemma_gs_pushed(a.drop_last(), b, k);
    }
}

/// The weight of the full mask table follows the two-sided recursion.
proof fn lemma_gs_masks(m: nat, k: nat)
    ensures
        gs(masks(m), k) == sumbf(m, k),
    decreases m,
{
    if m == 0 {
        let e = Seq::<bool>::empty();
        assert(masks(0) == seq![e]);
        assert(masks(0).len() == 1);
        assert(masks(0).last() == e);
        assert(ones(e) == 0);
        assert(masks(0).drop_last() =~= Seq::<Seq<bool>>::empty());
        assert(gs(masks(0).drop_last(), k) == 0);
        assert(gs(masks(0), k) == fact(k));
    } else {
        let prev = masks((m - 1) as nat);
        lemma_gs_concat(pushed(prev, true), pushed(prev, false), k);
        lemma_gs_pushed(prev, true, k);
        lemma_gs_pushed(prev, false, k);
        lemma_gs_masks((m - 1) as nat, (k + 1) as nat);
        lemma_gs_masks((m - 1) as nat, k);
    }
}

/// A size above the item count selects nothing.
proof fn lemma_binom_gt(n: nat, k: nat)
    requires
        k > n,
    ensures
        binom(n, k) == 0,
    decreases n,
{
    if n > 0 {
        lemma_binom_gt((n - 1) as nat, (k - 1) as nat);
        lemma_binom_gt((n - 1) as nat, k);
    }
}

/// There is one subset of full size.
proof fn lemma_binom_diag(n: nat)
    ensures
        binom(n, n) == 1,
    decreases n,
{
    if n > 0 {
        lemma_binom_diag((n - 1) as nat);
        lemma_binom_gt((n - 1) as nat, n);
    }
}

/// Pascal's rule folded over a partial sum: splitting every coefficient of
/// `m` items into the two coefficients of `m - 1` items.
proof fn lemma_bf_pascal(m: nat, k: nat, u: nat)
    requires
        1 <= m,
        1 <= u <= m - 1,
    ensures
        bf_partial(m, k, u) == bf_partial((m - 1) as nat, k, u) + bf_partial(
            (m - 1) as nat,
            (k + 1) as nat,
            (u - 1) as nat,
        ),
    decreases u,
{
    let m1 = (m - 1) as nat;
    if u == 1 {
        assert(binom(m, 0) == 1 && binom(m1, 0) == 1);
        assert(binom(m, 1) == binom(m1, 0) + binom(m1, 1));
        assert(bf_partial(m, k, 0) == binom(m, 0) * fact(k));
        assert(bf_partial(m1, k, 0) == binom(m1, 0) * fact(k));
        assert(bf_partial(m, k, 1) == binom(m, 0) * fact(k) + binom(m, 1) * fact(1 + k));
        assert(bf_partial(m1, k, 1) == binom(m1, 0) * fact(k) + binom(m1, 1) * fact(1 + k));
        assert(fact(1 + k) == fact(k + 1));
        assert(bf_partial(m1, (k + 1) as nat, 0) == binom(m1, 0) * fact(k + 1));
        assert((binom(m1, 0) + binom(m1, 1)) * fact(k + 1) == binom(m1, 0) * fact(k + 1)
            + binom(m1, 1) * fact(k + 1)) by (nonlinear_arith);
    } else {
        lemma_bf_pascal(m, k, (u - 1) as nat);
        assert(binom(m, u) == binom(m1, (u - 1) as nat) + binom(m1, u));
        assert((binom(m1, (u - 1) as nat) + binom(m1, u)) * fact(u + k) == binom(
            m1,
            (u - 1) as nat,
        ) * fact(u + k) + binom(m1, u) * fact(u + k)) by (nonlinear_arith);
        assert(fact(u + k) == fact(((u - 1) + (k + 1)) as nat));
    }
}

/// The two-sided recursion equals the explicit binomial sum.
proof fn lemma_sumbf_binom(m: nat, k: nat)
    ensures
        sumbf(m, k) == bf_partial(m, k, m),
    decreases m,
{
    let m1 = (m - 1) as nat;
    if m == 0 {
        assert(bf_partial(0, k, 0) == binom(0, 0) * fact(k));
        assert(binom(0, 0) * fact(k) == fact(k)) by (nonlinear_arith);
    } else {
        lemma_sumbf_binom(m1, (k + 1) as nat);
        lemma_sumbf_binom(m1, k);
        lemma_binom_diag(m);
        lemma_binom_diag(m1);
        if m == 1 {
            assert(bf_partial(1, k, 1) == binom(1, 0) * fact(k) + binom(1, 1) * fact(1 + k));
            assert(bf_partial(0, k, 0) == binom(0, 0) * fact(k));
            assert(bf_partial(0, (k + 1) as nat, 0) == binom(0, 0) * fact(k + 1));
            assert(binom(1, 0) == 1 && binom(1, 1) == 1 && binom(0, 0) == 1);
            assert(1nat * fact(k) == fact(k) && 1nat * fact(1 + k) == fact(1 + k))
                by (nonlinear_arith);
        } else {
            assert(bf_partial(m, k, m) == bf_partial(m, k, m1) + binom(m, m) * fact(m + k));
            lemma_bf_pascal(m, k, m1);
            assert(bf_partial(m1, (k + 1) as nat, m1) == bf_partial(
                m1,
                (k + 1) as nat,
                (m1 - 1) as nat,
            ) + binom(m1, m1) * fact(m1 + (k + 1)));
            assert(fact(m + k) == fact(m1 + (k + 1)));
            assert(binom(m, m) * fact(m + k) == binom(m1, m1) * fact(m1 + (k + 1)));
        }
    }
}

/// For `m` defaulted parameters, the named/omitted family holds one shape
/// per ordering of each used subset: over the subset sizes `s`, exactly
/// `binom(m, s) * fact(s)` shapes in all.
pub proof fn lemma_default_count_closed(m: nat)
    requires
        1 <= m,
    ensures
        default_count(m) == subset_fact_sum(m),
{
    lemma_blocks_len_gs(masks(m));
    lemma_gs_masks(m, 0);
    lemma_sumbf_binom(m, 0);
}

/// A subset row covers the full defaulted list.
#[verifier::rlimit(50)]
proof fn lemma_covers_subset_row(defs: Seq<FunctionParam>, mk: Seq<bool>, ord: Seq<usize>)
    requires
        mk.len() == defs.len(),
        defs.len() <= usize::MAX,
        is_order(ord, used_of(defs, mk).len()),
    ensures
        variant_covers(
            named_wrap(apply_order_spec(used_of(defs, mk), ord)) + default_wrap(
                unused_of(defs, mk),
            ),
            defs,
        ),
{
    let u = used_of(defs, mk);
    let x = unused_of(defs, mk);
    let a = named_wrap(apply_order_spec(u, ord));
    let b = default_wrap(x);
    lemma_select_lens(defs, mk);
    lemma_select_contains(defs, mk);
    assert((a + b).len() == defs.len());
    assert forall|j: int| 0 <= j < defs.len() implies has_slot_named(
        a + b,
        (#[trigger] defs[j]).name@,
    ) by {
        if mk[j] {
            assert(u.contains(defs[j]));
            let i = u.index_of(defs[j]);
            assert(0 <= i < u.len() && u[i] == defs[j]);
            assert(ord.contains(i as usize));
            let p = ord.index_of(i as usize);
            assert(0 <= p < ord.len() && ord[p] == i as usize);
            assert(apply_order_spec(u, ord)[p] == u[i]);
            assert((a + b)[p] == a[p]);
            assert(inner_of((a + b)[p]).name@ == defs[j].name@);
        } else {
            assert(x.contains(defs[j]));
            let i = x.index_of(defs[j]);
            assert(0 <= i < x.len() && x[i] == defs[j]);
            assert((a + b)[a.len() + i] == b[i]);
            assert(inner_of((a + b)[a.len() + i]).name@ == defs[j].name@);
        }
    }
}

/// Copy a mask vector.
fn dup_bools(v: &Vec<bool>) -> (r: Vec<bool>)
    ensures
        r@ == v@,
{
    let mut r: Vec<bool> = Vec::new();
    let mut i: usize = 0;
    while i < v.len()
        invariant
            i <= v@.len(),
            r@ == v@.take(i as int),
        decreases v@.len() - i,
    {
        r.push(v[i]);
        i += 1;
        proof {
            assert(r@ =~= v@.take(i as int));
        }
    }
    proof {
        assert(v@.take(v@.len() as int) == v@);
    }
    r
}

/// Build the mask table for `m` defaulted parameters.
fn build_masks(m: usize) -> (r: Vec<Vec<bool>>)
    ensures
        mask_views(r@) == masks(m as nat),
{
    let mut cur: Vec<Vec<bool>> = Vec::new();
    cur.push(Vec::new());
    proof {
        assert(mask_views(cur@) =~= masks(0));
    }
    let mut i: usize = 0;
    while i < m
        invariant
            i <= m,
            mask_views(cur@) == masks(i as nat),
        decreases m - i,
    {
        let ghost prev = masks(i as nat);
        let mut next: Vec<Vec<bool>> = Vec::new();
        let mut a: usize = 0;
        while a < cur.len()
            invariant
                a <= cur@.len(),
                cur@.len() == prev.len(),
                next@.len() == a,
                mask_views(cur@) == prev,
                mask_views(next@) == pushed(prev.take(a as int), true),
            decreases cur@.len() - a,
        {
            let ghost next_old = next@;
            let mut c = dup_bools(&cur[a]);
            proof {
                assert(mask_views(cur@)[a as int] == cur@[a as int]@);
                assert(c@ == prev[a as int]);
            }
            c.push(true);
            next.push(c);
            a += 1;
            proof {
                let nv = mask_views(next@);
                let tv = pushed(prev.take(a as int), true);
                assert(next@.len() == a);
                assert(nv.len() == a && tv.len() == a);
                assert forall|i: int| 0 <= i < nv.len() implies nv[i] == tv[i] by {
                    assert(nv[i] == next@[i]@);
                    assert(tv[i] == prev.take(a as int)[i].push(true));
                    assert(tv[i] == prev[i].push(true));
                    if i < a - 1 {
                        assert(next_old.len() == a - 1);
                        assert(next@[i] == next_old[i]);
                        assert(mask_views(next_old)[i] == next_old[i]@);
                        assert(pushed(prev.take(a - 1), true)[i] == prev.take(a - 1)[i].push(
                            true,
                        ));
                        assert(next_old[i]@ == prev[i].push(true));
                    } else {
                        assert(next@[i] == next@.last());
                        assert(next@[i]@ == prev[a - 1].push(true));
                    }
                }
                assert(nv =~= tv);
            }
        }
        let mut b: usize = 0;
        while b < cur.len()
            invariant
                b <= cur@.len(),
                cur@.len() == prev.len(),
                next@.len() == prev.len() + b,
                mask_views(cur@) == prev,
                mask_views(next@) == pushed(prev, true) + pushed(
                    prev.take(b as int),
                    false,
                ),
            decreases cur@.len() - b,
        {
            let ghost next_old = next@;
            let mut c = dup_bools(&cur[b]);
            proof {
                assert(mask_views(cur@)[b as int] == cur@[b as int]@);
                assert(c@ == prev[b as int]);
            }
            c.push(false);
            next.push(c);
            b += 1;
            proof {
                let nv = mask_views(next@);
                let tv = pushed(prev, true) + pushed(prev.take(b as int), false);
                assert(next@.len() == prev.len() + b);
                assert(nv.len() == prev.len() + b && tv.len() == prev.len() + b);
                assert forall|i: int| 0 <= i < nv.len() implies nv[i] == tv[i] by {
                    assert(nv[i] == next@[i]@);
                    if i < nv.len() - 1 {
                        assert(next_old.len() == prev.len() + b - 1);
                        assert(next@[i] == next_old[i]);
                        assert(mask_views(next_old)[i] == next_old[i]@);
                        let tv_old = pushed(prev, true) + pushed(prev.take(b - 1), false);
                        assert(next_old[i]@ == tv_old[i]);
                        if i < prev.len() {
                            assert(tv_old[i] == pushed(prev, true)[i]);
                            assert(tv[i] == pushed(prev, true)[i]);
                        } else {
                            assert(tv_old[i] == pushed(prev.take(b - 1), false)[i
                                - prev.len()]);
                            assert(tv_old[i] == prev.take(b - 1)[i - prev.len()].push(false));
                            assert(tv_old[i] == prev[i - prev.len()].push(false));
                            assert(tv[i] == pushed(prev.take(b as int), false)[i
                                - prev.len()]);
                            assert(tv[i] == prev[i - prev.len()].push(false));
                        }
                    } else {
                        assert(next@[i] == next@.last());
                        assert(next@[i]@ == prev[b - 1].push(false));
                        assert(tv[i] == pushed(prev.take(b as int), false)[i - prev.len()]);
                        assert(tv[i] == prev.take(b as int)[b - 1].push(false));
                        assert(tv[i] == prev[b - 1].push(false));
                    }
                }
                assert(nv =~= tv);
            }
        }
        cur = next;
        i += 1;
        proof {
            assert(prev.take(prev.len() as int) == prev);
            assert(mask_views(cur@) =~= masks(i as nat));
        }
    }
    cur
}

/// Split `defs` into its used and unused parameters under the mask `mk`.
fn select_by_mask(defs: &Vec<FunctionParam>, mk: &Vec<bool>) -> (r: (
    Vec<FunctionParam>,
    Vec<FunctionParam>,
))
    requires
        mk@.len() == defs@.len(),
    ensures
        r.0@ == used_of(defs@, mk@),
        r.1@ == unused_of(defs@, mk@),
{
    let mut used: Vec<FunctionParam> = Vec::new();
    let mut unused: Vec<FunctionParam> = Vec::new();
    let mut j: usize = 0;
    while j < defs.len()
        invariant
            j <= defs@.len(),
            mk@.len() == defs@.len(),
            used@ == used_of(defs@.take(j as int), mk@.take(j as int)),
            unused@ == unused_of(defs@.take(j as int), mk@.take(j as int)),
        decreases defs@.len() - j,
    {
        if mk[j] {
            used.push(defs[j].clone());
        } else {
            unused.push(defs[j].clone());
        }
        j += 1;
        proof {
            let dj = defs@.take(j as int);
            let mj = mk@.take(j as int);
            assert(dj.drop_last() =~= defs@.take(j - 1));
            assert(mj.drop_last() =~= mk@.take(j - 1));
            assert(dj.last() == defs@[j - 1] && mj.last() == mk@[j - 1]);
            assert(used@ =~= used_of(dj, mj));
            assert(unused@ =~= unused_of(dj, mj));
        }
    }
    proof {
        assert(defs@.take(defs@.len() as int) == defs@);
        assert(mk@.take(mk@.len() as int) == mk@);
    }
    (used, unused)
}

/// Perform permutations for default parameters. All permuted values are named.
/// For permutations of positional defaults see [`permute_pos_default`].
///
/// The first row of the matrix names every parameter in the original order.
/// Each used/omitted subset of the parameters contributes every ordering of
/// its used members, the omitted members following in declaration order.
pub fn permute_named_default(defaults: &Vec<FunctionParam>) -> (r: Vec<Vec<PermutedItem>>)
    ensures
        seq_views(r@) == default_matrix(defaults@),
        r@.len() == default_count(defaults@.len()),
        defaults@.len() > 0 ==> 0 < r@.len() && r@[0]@ == named_wrap(defaults@),
        all_covered(seq_views(r@), defaults@),
{
    let m = defaults.len();
    let mut r: Vec<Vec<PermutedItem>> = Vec::new();
    if m == 0 {
        proof {
            assert(seq_views(r@) =~= default_matrix(defaults@));
        }
        return r;
    }
    let mks = build_masks(m);
    let ghost mtbl = masks(m as nat);
    proof {
        lemma_masks_facts(m as nat);
    }
    let mut idx: usize = 0;
    while idx < mks.len()
        invariant
            idx <= mks@.len(),
            m == defaults@.len(),
            0 < m <= usize::MAX,
            mask_views(mks@) == mtbl,
            mtbl == masks(m as nat),
            forall|k: int| 0 <= k < mtbl.len() ==> (#[trigger] mtbl[k]).len() == m,
            mtbl[0] == all_true(m as nat),
            seq_views(r@) == subset_blocks(defaults@, mtbl.take(idx as int)),
            r@.len() == blocks_len(mtbl.take(idx as int)),
            forall|k: int| 0 <= k < r@.len() ==> variant_covers((#[trigger] r@[k])@, defaults@),
            idx > 0 ==> 0 < r@.len() && r@[0]@ == named_wrap(defaults@),
        decreases mks@.len() - idx,
    {
        let ghost r_before = r@;
        let ghost mk_spec = mtbl[idx as int];
        proof {
            assert(mks@[idx as int]@ == mk_spec);
        }
        let (used, unused) = select_by_mask(defaults, &mks[idx]);
        proof {
            lemma_select_lens(defaults@, mk_spec);
        }
        let orders = ordering_table(used.len());
        let ghost tbl = perm_table(used@.len());
        let unused_slots = wrap_default(&unused);
        let mut k: usize = 0;
        while k < orders.len()
            invariant
                k <= orders@.len(),
                m == defaults@.len(),
                0 < m <= usize::MAX,
                mk_spec.len() == m,
                used@ == used_of(defaults@, mk_spec),
                unused@ == unused_of(defaults@, mk_spec),
                unused_slots@ == default_wrap(unused@),
                orders@.map_values(|v: Vec<usize>| v@) == tbl,
                tbl == perm_table(used@.len()),
                perm_facts(used@.len()),
                r@.len() == r_before.len() + k,
                forall|i: int| 0 <= i < r_before.len() ==> r@[i] == r_before[i],
                forall|i: int|
                    0 <= i < k ==> (#[trigger] r@[r_before.len() + i])@ == subset_block(
                        defaults@,
                        mk_spec,
                    )[i],
                forall|i: int|
                    0 <= i < r@.len() ==> variant_covers((#[trigger] r@[i])@, defaults@),
                idx > 0 ==> 0 < r@.len() && r@[0]@ == named_wrap(defaults@),
            decreases orders@.len() - k,
        {
            proof {
                assert(orders@[k as int]@ == tbl[k as int]);
                assert(is_order(tbl[k as int], used@.len()));
            }
            let applied = apply_order(&used, &orders[k]);
            let mut row = wrap_named(&applied);
            let mut tail = dup_items(&unused_slots);
            row.append(&mut tail);
            proof {
                assert(row@ == named_wrap(apply_order_spec(used@, tbl[k as int])) + default_wrap(
                    unused@,
                ));
                assert(subset_block(defaults@, mk_spec)[k as int] == row@);
                lemma_covers_subset_row(defaults@, mk_spec, tbl[k as int]);
            }
            r.push(row);
            k += 1;
        }
        idx += 1;
        proof {
            let pre = mtbl.take(idx as int);
            assert(pre.drop_last() =~= mtbl.take(idx - 1));
            assert(pre.last() == mk_spec);
            assert(subset_blocks(defaults@, pre) == subset_blocks(defaults@, mtbl.take(idx - 1))
                + subset_block(defaults@, mk_spec));
            assert(subset_block(defaults@, mk_spec).len() == tbl.len());
            assert forall|i: int| 0 <= i < r_before.len() implies seq_views(r@)[i]
                == subset_blocks(defaults@, mtbl.take(idx - 1))[i] by {
                assert(seq_views(r@)[i] == r@[i]@);
                assert(r@[i] == r_before[i]);
                assert(seq_views(r_before)[i] == r_before[i]@);
            }
            assert forall|i: int| 0 <= i < tbl.len() implies seq_views(r@)[r_before.len() + i]
                == subset_block(defaults@, mk_spec)[i] by {
                assert(seq_views(r@)[r_before.len() + i] == r@[r_before.len() + i]@);
            }
            assert(seq_views(r@) =~= subset_blocks(defaults@, pre));
            assert(fact(ones(mk_spec)) == tbl.len()) by {
                lemma_select_lens(defaults@, mk_spec);
            }
            assert(r@.len() == blocks_len(pre));
            if idx == 1 {
                assert(mk_spec == all_true(m as nat));
                lemma_select_all_true(defaults@);
                assert(used@ == defaults@);
                assert(0 < tbl.len());
                assert(r@[0]@ == subset_block(defaults@, mk_spec)[0]);
                assert(tbl[0] == identity_order(defaults@.len()));
                assert(apply_order_spec(defaults@, identity_order(defaults@.len()))
                    =~= defaults@);
                assert(default_wrap(unused@) =~= Seq::<PermutedItem>::empty());
                assert(named_wrap(defaults@) + Seq::<PermutedItem>::empty() =~= named_wrap(
                    defaults@,
                ));
                assert(r@[0]@ == named_wrap(defaults@));
            }
        }
    }
    proof {
        assert(mtbl.take(mtbl.len() as int) == mtbl);
        assert(seq_views(r@) == default_matrix(defaults@));
        assert forall|k: int| 0 <= k < seq_views(r@).len() implies variant_covers(
            #[trigger] seq_views(r@)[k],
            defaults@,
        ) by {
            assert(seq_views(r@)[k] == r@[k]@);
        }
    }
    r
}

/// Copy the first `p` parameters of `v`.
pub(crate) fn take_params(v: &Vec<FunctionParam>, p: usize) -> (r: Vec<FunctionParam>)
    requires
        p <= v@.len(),
    ensures
        r@ == v@.take(p as int),
{
    let mut r: Vec<FunctionParam> = Vec::new();
    let mut i: usize = 0;
    while i < p
        invariant
            i <= p <= v@.len(),
            r@ == v@.take(i as int),
        decreases p - i,
    {
        r.push(v[i].clone());
        i += 1;
        proof {
            assert(r@ =~= v@.take(i as int));
        }
    }
    r
}

/// Copy the parameters of `v` from position `p` on.
pub(crate) fn skip_params(v: &Vec<FunctionParam>, p: usize) -> (r: Vec<FunctionParam>)
    requires
        p <= v@.len(),
    ensures
        r@ == v@.skip(p as int),
{
    let mut r: Vec<FunctionParam> = Vec::new();
    let mut i: usize = p;
    while i < v.len()
        invariant
            p <= i <= v@.len(),
            r@ == v@.subrange(p as int, i as int),
        decreases v@.len() - i,
    {
        r.push(v[i].clone());
        i += 1;
        proof {
            assert(r@ =~= v@.subrange(p as int, i as int));
        }
    }
    proof {
        assert(v@.subrange(p as int, v@.len() as int) =~= v@.skip(p as int));
    }
    r
}

/// The shapes contributed by the positional-default prefix of length `p`:
/// the whole list positional when `p` covers it, otherwise the prefix
/// positional and the remainder running through the named/omitted family.
pub open spec fn pos_block(defs: Seq<FunctionParam>, p: int) -> Seq<Seq<PermutedItem>> {
    if p == defs.len() {
        seq![positional_wrap(defs)]
    } else {
        default_matrix(defs.skip(p)).map_values(
            |v: Seq<PermutedItem>| positional_wrap(defs.take(p)) + v,
        )
    }
}

/// The positional-default blocks for prefix lengths `1 ..= p`.
pub open spec fn pos_upto(defs: Seq<FunctionParam>, p: nat) -> Seq<Seq<PermutedItem>>
    decreases p,
{
    if p == 0 {
        Seq::empty()
    } else {
        pos_upto(defs, (p - 1) as nat) + pos_block(defs, p as int)
    }
}

/// The full positional-default family of the defaulted parameters.
pub open spec fn pos_default_matrix(defs: Seq<FunctionParam>) -> Seq<Seq<PermutedItem>> {
    pos_upto(defs, defs.len())
}

/// Number of shapes in the positional-default family up to prefix `p`.
pub open spec fn pos_count_upto(m: nat, p: nat) -> nat
    decreases p,
{
    if p == 0 {
        0
    } else {
        pos_count_upto(m, (p - 1) as nat) + if p == m {
            1nat
        } else {
            default_count((m - p) as nat)
        }
    }
}

/// Number of shapes in the positional-default family of `m` parameters.
pub open spec fn pos_count(m: nat) -> nat {
    pos_count_upto(m, m)
}

/// Append `prefix + row` to `out` for every row of `rest`.
fn append_prefixed(
    out: &mut Vec<Vec<PermutedItem>>,
    prefix: &Vec<PermutedItem>,
    rest: &Vec<Vec<PermutedItem>>,
)
    ensures
        final(out)@.len() == old(out)@.len() + rest@.len(),
        forall|i: int| 0 <= i < old(out)@.len() ==> final(out)@[i] == old(out)@[i],
        forall|i: int|
            0 <= i < rest@.len() ==> (#[trigger] final(out)@[old(out)@.len() + i])@ == prefix@
                + rest@[i]@,
{
    let ghost base = out@;
    let mut j: usize = 0;
    while j < rest.len()
        invariant
            j <= rest@.len(),
            out@.len() == base.len() + j,
            forall|i: int| 0 <= i < base.len() ==> out@[i] == base[i],
            forall|i: int|
                0 <= i < j ==> (#[trigger] out@[base.len() + i])@ == prefix@ + rest@[i]@,
        decreases rest@.len() - j,
    {
        let mut row = dup_items(prefix);
        let mut tail = dup_items(&rest[j]);
        row.append(&mut tail);
        out.push(row);
        j += 1;
    }
}

/// One step of the positional-default family: appending the block of
/// prefix length `q + 1` to the first `q` blocks extends the family.
#[verifier::rlimit(100)]
proof fn lemma_pos_step(
    defs: Seq<FunctionParam>,
    q: nat,
    rv: Seq<Seq<PermutedItem>>,
    before: Seq<Seq<PermutedItem>>,
    after: Seq<Seq<PermutedItem>>,
)
    requires
        q + 1 < defs.len(),
        before == pos_upto(defs, q),
        rv == default_matrix(defs.skip(q + 1 as int)),
        after.len() == before.len() + rv.len(),
        forall|i: int| 0 <= i < before.len() ==> after[i] == before[i],
        forall|i: int|
            0 <= i < rv.len() ==> #[trigger] after[before.len() + i] == positional_wrap(
                defs.take(q + 1 as int),
            ) + rv[i],
    ensures
        after == pos_upto(defs, (q + 1) as nat),
{
    let p = q + 1;
    let blk = pos_block(defs, p as int);
    assert(blk.len() == rv.len());
    assert forall|i: int| 0 <= i < rv.len() implies blk[i] == positional_wrap(defs.take(
        p as int,
    )) + rv[i] by {
        assert(blk[i] == positional_wrap(defs.take(p as int)) + rv[i]);
    }
    assert forall|i: int| 0 <= i < after.len() implies after[i] == (before + blk)[i] by {
        if i < before.len() {
            assert((before + blk)[i] == before[i]);
        } else {
            let j = i - before.len();
            assert(after[before.len() + j] == positional_wrap(defs.take(p as int)) + rv[j]);
            assert((before + blk)[i] == blk[j]);
        }
    }
    assert(after =~= before + blk);
    assert(pos_upto(defs, (q + 1) as nat) == pos_upto(defs, q) + blk);
}

/// Prepending a covered positional prefix to rows covering the remainder
/// yields rows covering the whole list.
#[verifier::rlimit(100)]
proof fn lemma_prefix_covers(
    defs: Seq<FunctionParam>,
    p: int,
    rv: Seq<Seq<PermutedItem>>,
    before: Seq<Seq<PermutedItem>>,
    after: Seq<Seq<PermutedItem>>,
)
    requires
        0 <= p <= defs.len(),
        all_covered(rv, defs.skip(p)),
        all_covered(before, defs),
        after.len() == before.len() + rv.len(),
        forall|i: int| 0 <= i < before.len() ==> after[i] == before[i],
        forall|i: int|
            0 <= i < rv.len() ==> #[trigger] after[before.len() + i] == positional_wrap(
                defs.take(p),
            ) + rv[i],
    ensures
        all_covered(after, defs),
{
    assert forall|k: int| 0 <= k < after.len() implies variant_covers(
        #[trigger] after[k],
        defs,
    ) by {
        if k < before.len() {
            assert(variant_covers(before[k], defs));
        } else {
            let j = k - before.len();
            assert(after[before.len() + j] == positional_wrap(defs.take(p)) + rv[j]);
            assert(variant_covers(rv[j], defs.skip(p)));
            lemma_covers_wrap(defs.take(p));
            lemma_covers_concat(
                positional_wrap(defs.take(p)),
                defs.take(p),
                rv[j],
                defs.skip(p),
            );
            assert(defs.take(p) + defs.skip(p) =~= defs);
        }
    }
}

/// Perform permutations for positional default parameters.
///
/// This is for the special case where all preceding non-default parameters
/// are used as positional parameters: some leading defaults are supplied
/// positionally too, and the rest are named or omitted as usual.
#[verifier::rlimit(100)]
pub fn permute_pos_default(defaults: &Vec<FunctionParam>) -> (r: Vec<Vec<PermutedItem>>)
    ensures
        seq_views(r@) == pos_default_matrix(defaults@),
        r@.len() == pos_count(defaults@.len()),
        all_covered(seq_views(r@), defaults@),
{
    let m = defaults.len();
    let mut r: Vec<Vec<PermutedItem>> = Vec::new();
    let mut q: usize = 0;
    while q < m
        invariant
            q <= m,
            m == defaults@.len(),
            seq_views(r@) == pos_upto(defaults@, q as nat),
            r@.len() == pos_count_upto(m as nat, q as nat),
            all_covered(seq_views(r@), defaults@),
        decreases m - q,
    {
        let ghost r_before = r@;
        let p = q + 1;
        let prefix = take_params(defaults, p);
        let prefix_slots = wrap_positional(&prefix);
        if p == m {
            proof {
                assert(defaults@.take(m as int) == defaults@);
                lemma_covers_wrap(defaults@);
            }
            r.push(prefix_slots);
            proof {
                assert(pos_block(defaults@, p as int) == seq![positional_wrap(defaults@)]);
                assert(seq_views(r@) =~= pos_upto(defaults@, p as nat));
                assert forall|k: int| 0 <= k < seq_views(r@).len() implies variant_covers(
                    #[trigger] seq_views(r@)[k],
                    defaults@,
                ) by {
                    assert(seq_views(r@)[k] == r@[k]@);
                    if k < r_before.len() {
                        assert(seq_views(r_before)[k] == r_before[k]@);
                    } else {
                        assert(r@[k]@ == positional_wrap(defaults@));
                    }
                }
            }
        } else {
            let suffix = skip_params(defaults, p);
            let rest = permute_named_default(&suffix);
            append_prefixed(&mut r, &prefix_slots, &rest);
            proof {
                let rv = seq_views(rest@);
                assert forall|i: int|
                    0 <= i < rv.len() implies #[trigger] seq_views(r@)[r_before.len() + i]
                    == positional_wrap(defaults@.take(p as int)) + rv[i] by {
                    assert(r@[r_before.len() + i]@ == prefix_slots@ + rest@[i]@);
                    assert(seq_views(r@)[r_before.len() + i] == r@[r_before.len() + i]@);
                    assert(rv[i] == rest@[i]@);
                }
                assert forall|i: int| 0 <= i < r_before.len() implies #[trigger] seq_views(
                    r@,
                )[i] == seq_views(r_before)[i] by {
                    assert(seq_views(r@)[i] == r@[i]@);
                    assert(r@[i] == r_before[i]);
                    assert(seq_views(r_before)[i] == r_before[i]@);
                }
                assert(seq_views(r@).len() == r_before.len() + rv.len());
                lemma_pos_step(
                    defaults@,
                    q as nat,
                    rv,
                    seq_views(r_before),
                    seq_views(r@),
                );
                lemma_prefix_covers(
                    defaults@,
                    p as int,
                    rv,
                    seq_views(r_before),
                    seq_views(r@),
                );
                assert(rv.len() == default_count((m - p) as nat));
            }
        }
        q = p;
    }
    proof {
        assert(seq_views(r@) == pos_default_matrix(defaults@));
    }
    r
}

/// The shapes of one required split point `k`: the first `k` required
/// parameters positional in declaration order, the remainder named in every
/// ordering.
pub open spec fn req_block(req: Seq<FunctionParam>, k: int) -> Seq<Seq<PermutedItem>> {
    perm_table(req.skip(k).len()).map_values(
        |ord: Seq<usize>| positional_wrap(req.take(k)) + named_wrap(
            apply_order_spec(req.skip(k), ord),
        ),
    )
}

/// The required-split blocks for split points `0 .. t`.
pub open spec fn req_upto(req: Seq<FunctionParam>, t: nat) -> Seq<Seq<PermutedItem>>
    decreases t,
{
    if t == 0 {
        Seq::empty()
    } else {
        req_upto(req, (t - 1) as nat) + req_block(req, t - 1)
    }
}

/// The full required-parameter family: every split point `0 ..= len`.
pub open spec fn required_matrix(req: Seq<FunctionParam>) -> Seq<Seq<PermutedItem>> {
    req_upto(req, req.len() + 1)
}

/// Number of shapes of the first `t` required split points.
pub open spec fn req_count_upto(n: nat, t: nat) -> nat
    decreases t,
{
    if t == 0 {
        0
    } else {
        req_count_upto(n, (t - 1) as nat) + fact((n - (t - 1)) as nat)
    }
}

/// Number of shapes in the required-parameter family of `n` parameters.
pub open spec fn named_total(n: nat) -> nat {
    req_count_upto(n, n + 1)
}

/// One step of the required family: appending the block of split point `k`.
#[verifier::rlimit(100)]
proof fn lemma_req_step(
    req: Seq<FunctionParam>,
    k: nat,
    rv: Seq<Seq<PermutedItem>>,
    before: Seq<Seq<PermutedItem>>,
    after: Seq<Seq<PermutedItem>>,
)
    requires
        k <= req.len(),
        before == req_upto(req, k),
        rv == named_matrix(req.skip(k as int)),
        after.len() == before.len() + rv.len(),
        forall|i: int| 0 <= i < before.len() ==> after[i] == before[i],
        forall|i: int|
            0 <= i < rv.len() ==> #[trigger] after[before.len() + i] == positional_wrap(
                req.take(k as int),
            ) + rv[i],
    ensures
        after == req_upto(req, (k + 1) as nat),
{
    let blk = req_block(req, k as int);
    assert(blk.len() == rv.len());
    assert forall|i: int| 0 <= i < rv.len() implies blk[i] == positional_wrap(req.take(
        k as int,
    )) + rv[i] by {
        assert(blk[i] == positional_wrap(req.take(k as int)) + named_wrap(
            apply_order_spec(req.skip(k as int), perm_table(req.skip(k as int).len())[i]),
        ));
        assert(rv[i] == named_wrap(
            apply_order_spec(req.skip(k as int), perm_table(req.skip(k as int).len())[i]),
        ));
    }
    assert forall|i: int| 0 <= i < after.len() implies after[i] == (before + blk)[i] by {
        if i < before.len() {
            assert((before + blk)[i] == before[i]);
        } else {
            let j = i - before.len();
            assert(after[before.len() + j] == positional_wrap(req.take(k as int)) + rv[j]);
            assert((before + blk)[i] == blk[j]);
        }
    }
    assert(after =~= before + blk);
    assert(req_upto(req, (k + 1) as nat) == req_upto(req, k) + blk);
}

/// Append to `out` the block of required split point `k`.
#[verifier::rlimit(100)]
fn push_req_block(out: &mut Vec<Vec<PermutedItem>>, required: &Vec<FunctionParam>, k: usize)
    requires
        k <= required@.len(),
        seq_views(old(out)@) == req_upto(required@, k as nat),
        old(out)@.len() == req_count_upto(required@.len(), k as nat),
        all_covered(seq_views(old(out)@), required@),
    ensures
        seq_views(final(out)@) == req_upto(required@, (k + 1) as nat),
        final(out)@.len() == req_count_upto(required@.len(), (k + 1) as nat),
        all_covered(seq_views(final(out)@), required@),
        0 < final(out)@.len(),
        old(out)@.len() == 0 ==> final(out)@[0]@ == positional_wrap(required@.take(k as int))
            + named_wrap(required@.skip(k as int)),
        0 < old(out)@.len() ==> final(out)@[0] == old(out)@[0],
{
    let ghost r_before = out@;
    let prefix = take_params(required, k);
    let prefix_slots = wrap_positional(&prefix);
    let suffix = skip_params(required, k);
    let rest = permute_named(&suffix);
    append_prefixed(out, &prefix_slots, &rest);
    proof {
        let rv = seq_views(rest@);
        assert forall|i: int|
            0 <= i < rv.len() implies #[trigger] seq_views(out@)[r_before.len() + i]
            == positional_wrap(required@.take(k as int)) + rv[i] by {
            assert(out@[r_before.len() + i]@ == prefix_slots@ + rest@[i]@);
            assert(seq_views(out@)[r_before.len() + i] == out@[r_before.len() + i]@);
            assert(rv[i] == rest@[i]@);
        }
        assert forall|i: int| 0 <= i < r_before.len() implies #[trigger] seq_views(out@)[i]
            == seq_views(r_before)[i] by {
            assert(seq_views(out@)[i] == out@[i]@);
            assert(out@[i] == r_before[i]);
            assert(seq_views(r_before)[i] == r_before[i]@);
        }
        assert(seq_views(out@).len() == r_before.len() + rv.len());
        lemma_req_step(
            required@,
            k as nat,
            rv,
            seq_views(r_before),
            seq_views(out@),
        );
        lemma_prefix_covers(
            required@,
            k as int,
            rv,
            seq_views(r_before),
            seq_views(out@),
        );
        assert(rv.len() == fact((required@.len() - k) as nat));
        if r_before.len() == 0 {
            assert(0 < rest@.len());
            assert(out@[r_before.len() as int + 0]@ == prefix_slots@ + rest@[0]@);
            assert(out@[0]@ == prefix_slots@ + rest@[0]@);
            assert(rest@[0]@ == named_wrap(required@.skip(k as int)));
        } else {
            assert(out@[0] == r_before[0]);
        }
    }
}

/// The required-parameter family: for every split point, a positional
/// prefix in declaration order followed by every ordering of the remaining
/// parameters as named arguments.
fn permute_required(required: &Vec<FunctionParam>) -> (r: Vec<Vec<PermutedItem>>)
    ensures
        seq_views(r@) == required_matrix(required@),
        r@.len() == named_total(required@.len()),
        0 < r@.len(),
        r@[0]@ == named_wrap(required@),
        all_covered(seq_views(r@), required@),
{
    let n = required.len();
    let mut r: Vec<Vec<PermutedItem>> = Vec::new();
    proof {
        assert(seq_views(r@) =~= req_upto(required@, 0));
    }
    let mut k: usize = 0;
    while k < n
        invariant
            k <= n,
            n == required@.len(),
            seq_views(r@) == req_upto(required@, k as nat),
            r@.len() == req_count_upto(n as nat, k as nat),
            all_covered(seq_views(r@), required@),
            k > 0 ==> 0 < r@.len() && r@[0]@ == named_wrap(required@),
        decreases n - k,
    {
        push_req_block(&mut r, required, k);
        proof {
            if k == 0 {
                assert(r@[0]@ == positional_wrap(required@.take(0)) + named_wrap(
                    required@.skip(0),
                ));
                assert(positional_wrap(required@.take(0)) =~= Seq::<PermutedItem>::empty());
                assert(required@.skip(0) =~= required@);
                assert(Seq::<PermutedItem>::empty() + named_wrap(required@) =~= named_wrap(
                    required@,
                ));
            }
        }
        k += 1;
    }
    push_req_block(&mut r, required, n);
    proof {
        if n == 0 {
            assert(r@[0]@ == positional_wrap(required@.take(0)) + named_wrap(
                required@.skip(0),
            ));
            assert(positional_wrap(required@.take(0)) =~= Seq::<PermutedItem>::empty());
            assert(required@.skip(0) =~= required@);
            assert(Seq::<PermutedItem>::empty() + named_wrap(required@) =~= named_wrap(
                required@,
            ));
        }
        assert(required_matrix(required@) == req_upto(required@, (n + 1) as nat));
    }
    r
}

/// The views of a matrix of paired slot vectors.
pub open spec fn pair_views(rs: Seq<(Vec<PermutedItem>, Vec<PermutedItem>)>) -> Seq<
    (Seq<PermutedItem>, Seq<PermutedItem>),
> {
    Seq::new(rs.len(), |i: int| (rs[i].0@, rs[i].1@))
}

/// One left row paired with every right row, in order.
pub open spec fn cross_row(x: Seq<PermutedItem>, bs: Seq<Seq<PermutedItem>>) -> Seq<
    (Seq<PermutedItem>, Seq<PermutedItem>),
> {
    Seq::new(bs.len(), |j: int| (x, bs[j]))
}

/// Every left row paired with every right row: left rows outermost.
pub open spec fn cross(rows: Seq<Seq<PermutedItem>>, bs: Seq<Seq<PermutedItem>>) -> Seq<
    (Seq<PermutedItem>, Seq<PermutedItem>),
>
    decreases rows.len(),
{
    if rows.len() == 0 {
        Seq::empty()
    } else {
        cross(rows.drop_last(), bs) + cross_row(rows.last(), bs)
    }
}

/// Each row paired with an empty defaulted half.
pub open spec fn alone(rows: Seq<Seq<PermutedItem>>) -> Seq<
    (Seq<PermutedItem>, Seq<PermutedItem>),
> {
    Seq::new(rows.len(), |i: int| (rows[i], Seq::<PermutedItem>::empty()))
}

/// One fixed left half paired with each row.
pub open spec fn with_base(base: Seq<PermutedItem>, rows: Seq<Seq<PermutedItem>>) -> Seq<
    (Seq<PermutedItem>, Seq<PermutedItem>),
> {
    Seq::new(rows.len(), |i: int| (base, rows[i]))
}

/// The full matrix of call shapes: the required family combined with the
/// named/omitted default family, then the all-positional shapes with the
/// positional-default family appended.
pub open spec fn spec_permute(req: Seq<FunctionParam>, def: Seq<FunctionParam>) -> Seq<
    (Seq<PermutedItem>, Seq<PermutedItem>),
> {
    (if default_matrix(def).len() == 0 {
        alone(required_matrix(req))
    } else {
        cross(required_matrix(req), default_matrix(def))
    }) + with_base(positional_wrap(req), pos_default_matrix(def))
}

/// Number of shapes `permute` returns for `n` required and `m` defaulted
/// parameters.
pub open spec fn total_count(n: nat, m: nat) -> nat {
    named_total(n) * (if default_count(m) == 0 {
        1nat
    } else {
        default_count(m)
    }) + pos_count(m)
}

/// A cross product has one pair per combination.
proof fn lemma_cross_len(rows: Seq<Seq<PermutedItem>>, bs: Seq<Seq<PermutedItem>>)
    ensures
        cross(rows, bs).len() == rows.len() * bs.len(),
    decreases rows.len(),
{
    if rows.len() == 0 {
    } else {
        lemma_cross_len(rows.drop_last(), bs);
        assert((rows.len() - 1) * bs.len() + bs.len() == rows.len() * bs.len())
            by (nonlinear_arith);
    }
}

/// Append `(left, row)` to `out` for every row of `rights`.
fn append_right_rows(
    out: &mut Vec<(Vec<PermutedItem>, Vec<PermutedItem>)>,
    left: &Vec<PermutedItem>,
    rights: &Vec<Vec<PermutedItem>>,
)
    ensures
        final(out)@.len() == old(out)@.len() + rights@.len(),
        forall|i: int| 0 <= i < old(out)@.len() ==> final(out)@[i] == old(out)@[i],
        forall|i: int|
            0 <= i < rights@.len() ==> ((#[trigger] final(out)@[old(out)@.len() + i]).0@
                == left@ && final(out)@[old(out)@.len() + i].1@ == rights@[i]@),
{
    let ghost base = out@;
    let mut j: usize = 0;
    while j < rights.len()
        invariant
            j <= rights@.len(),
            out@.len() == base.len() + j,
            forall|i: int| 0 <= i < base.len() ==> out@[i] == base[i],
            forall|i: int|
                0 <= i < j ==> ((#[trigger] out@[base.len() + i]).0@ == left@ && out@[base.len()
                    + i].1@ == rights@[i]@),
        decreases rights@.len() - j,
    {
        let l = dup_items(left);
        let rr = dup_items(&rights[j]);
        out.push((l, rr));
        j += 1;
    }
}

/// Append `(row, empty)` to `out` for every row of `lefts`.
fn append_left_rows(
    out: &mut Vec<(Vec<PermutedItem>, Vec<PermutedItem>)>,
    lefts: &Vec<Vec<PermutedItem>>,
)
    ensures
        final(out)@.len() == old(out)@.len() + lefts@.len(),
        forall|i: int| 0 <= i < old(out)@.len() ==> final(out)@[i] == old(out)@[i],
        forall|i: int|
            0 <= i < lefts@.len() ==> ((#[trigger] final(out)@[old(out)@.len() + i]).0@
                == lefts@[i]@ && final(out)@[old(out)@.len() + i].1@
                == Seq::<PermutedItem>::empty()),
{
    let ghost base = out@;
    let mut j: usize = 0;
    while j < lefts.len()
        invariant
            j <= lefts@.len(),
            out@.len() == base.len() + j,
            forall|i: int| 0 <= i < base.len() ==> out@[i] == base[i],
            forall|i: int|
                0 <= i < j ==> ((#[trigger] out@[base.len() + i]).0@ == lefts@[i]@ && out@[
                    base.len() + i].1@ == Seq::<PermutedItem>::empty()),
        decreases lefts@.len() - j,
    {
        let l = dup_items(&lefts[j]);
        out.push((l, Vec::new()));
        j += 1;
    }
}

/// One step of the cross product: pairing the next left row with every
/// right row extends the product.
#[verifier::rlimit(100)]
proof fn lemma_cross_step(
    nv: Seq<Seq<PermutedItem>>,
    dv: Seq<Seq<PermutedItem>>,
    i: int,
    before: Seq<(Seq<PermutedItem>, Seq<PermutedItem>)>,
    after: Seq<(Seq<PermutedItem>, Seq<PermutedItem>)>,
)
    requires
        0 <= i < nv.len(),
        before == cross(nv.take(i), dv),
        after.len() == before.len() + dv.len(),
        forall|k: int| 0 <= k < before.len() ==> after[k] == before[k],
        forall|j: int|
            0 <= j < dv.len() ==> #[trigger] after[before.len() + j] == (nv[i], dv[j]),
    ensures
        after == cross(nv.take(i + 1), dv),
{
    let t = nv.take(i + 1);
    assert(t.drop_last() =~= nv.take(i));
    assert(t.last() == nv[i]);
    assert(cross(t, dv) == cross(nv.take(i), dv) + cross_row(nv[i], dv));
    assert forall|k: int| 0 <= k < after.len() implies after[k] == cross(t, dv)[k] by {
        if k < before.len() {
            assert(cross(t, dv)[k] == before[k]);
        } else {
            let j = k - before.len();
            assert(after[before.len() + j] == (nv[i], dv[j]));
            assert(cross(t, dv)[k] == cross_row(nv[i], dv)[j]);
        }
    }
    assert(after =~= cross(t, dv));
}

/// Generate all permutations of positional items and default items.
///
/// Returns a matrix of pairs: the required half and the defaulted half of
/// each call shape.
///
/// The first row of the matrix is guaranteed to carry only named slots, in
/// the original order (`required` then `default`).
#[verifier::rlimit(100)]
pub fn permute(required: Vec<FunctionParam>, default: Vec<FunctionParam>) -> (r: Vec<
    (Vec<PermutedItem>, Vec<PermutedItem>),
>)
    ensures
        pair_views(r@) == spec_permute(required@, default@),
        r@.len() == total_count(required@.len(), default@.len()),
        0 < r@.len(),
        r@[0].0@ == named_wrap(required@),
        r@[0].1@ == named_wrap(default@),
        forall|k: int|
            0 <= k < r@.len() ==> variant_covers(
                (#[trigger] r@[k]).0@ + r@[k].1@,
                required@ + default@,
            ),
{
    let named_permute = permute_required(&required);
    let default_permute = permute_named_default(&default);
    let default_positional_permute = permute_pos_default(&default);
    let ghost nv = seq_views(named_permute@);
    let ghost dv = seq_views(default_permute@);
    let ghost pv = seq_views(default_positional_permute@);
    let ghost n = required@.len();
    let ghost m = default@.len();
    let mut r: Vec<(Vec<PermutedItem>, Vec<PermutedItem>)> = Vec::new();
    if default_permute.len() == 0 {
        append_left_rows(&mut r, &named_permute);
        proof {
            assert(default@.len() == 0);
            assert forall|i: int| 0 <= i < r@.len() implies pair_views(r@)[i] == alone(
                nv,
            )[i] by {
                assert(r@[0int + i].0@ == named_permute@[i]@ && r@[0int + i].1@
                    == Seq::<PermutedItem>::empty());
                assert(nv[i] == named_permute@[i]@);
            }
            assert(pair_views(r@) =~= alone(nv));
            assert(r@[0int + 0].0@ == named_permute@[0]@);
            assert(r@[0].0@ == named_wrap(required@));
            assert(named_wrap(default@) =~= Seq::<PermutedItem>::empty());
            assert(r@[0].1@ == named_wrap(default@));
            assert forall|k: int| 0 <= k < r@.len() implies variant_covers(
                (#[trigger] r@[k]).0@ + r@[k].1@,
                required@ + default@,
            ) by {
                assert(r@[0int + k].0@ == named_permute@[k]@);
                assert(nv[k] == named_permute@[k]@);
                assert(variant_covers(nv[k], required@));
                assert(r@[k].0@ + r@[k].1@ =~= nv[k]);
                assert(required@ + default@ =~= required@);
            }
            assert(r@.len() == named_total(n) * 1);
        }
    } else {
        let mut i: usize = 0;
        while i < named_permute.len()
            invariant
                i <= named_permute@.len(),
                nv == seq_views(named_permute@),
                dv == seq_views(default_permute@),
                n == required@.len(),
                m == default@.len(),
                0 < dv.len(),
                dv.len() == default_count(m),
                dv == default_matrix(default@),
                nv == required_matrix(required@),
                nv.len() == named_permute@.len(),
                dv.len() == default_permute@.len(),
                named_permute@.len() == named_total(n),
                all_covered(nv, required@),
                all_covered(dv, default@),
                0 < m,
                named_permute@[0]@ == named_wrap(required@),
                default_permute@[0]@ == named_wrap(default@),
                pair_views(r@) == cross(nv.take(i as int), dv),
                forall|k: int|
                    0 <= k < r@.len() ==> variant_covers(
                        (#[trigger] r@[k]).0@ + r@[k].1@,
                        required@ + default@,
                    ),
                i > 0 ==> 0 < r@.len() && r@[0].0@ == named_wrap(required@) && r@[0].1@
                    == named_wrap(default@),
            decreases named_permute@.len() - i,
        {
            let ghost r_before = r@;
            append_right_rows(&mut r, &named_permute[i], &default_permute);
            proof {
                assert forall|j: int| 0 <= j < dv.len() implies #[trigger] pair_views(
                    r@,
                )[r_before.len() + j] == (nv[i as int], dv[j]) by {
                    assert(r@[r_before.len() + j].0@ == named_permute@[i as int]@);
                    assert(r@[r_before.len() + j].1@ == default_permute@[j]@);
                    assert(nv[i as int] == named_permute@[i as int]@);
                    assert(dv[j] == default_permute@[j]@);
                }
                assert forall|k: int| 0 <= k < r_before.len() implies #[trigger] pair_views(
                    r@,
                )[k] == pair_views(r_before)[k] by {
                    assert(r@[k] == r_before[k]);
                }
                assert(pair_views(r@).len() == r_before.len() + dv.len());
                lemma_cross_step(
                    nv,
                    dv,
                    i as int,
                    pair_views(r_before),
                    pair_views(r@),
                );
                assert forall|k: int| 0 <= k < r@.len() implies variant_covers(
                    (#[trigger] r@[k]).0@ + r@[k].1@,
                    required@ + default@,
                ) by {
                    if k >= r_before.len() {
                        let j = k - r_before.len();
                        assert(r@[r_before.len() + j].0@ == named_permute@[i as int]@);
                        assert(r@[r_before.len() + j].1@ == default_permute@[j]@);
                        assert(variant_covers(nv[i as int], required@));
                        assert(variant_covers(dv[j], default@));
                        lemma_covers_concat(nv[i as int], required@, dv[j], default@);
                    }
                }
                if i == 0 {
                    assert(r@[r_before.len() as int + 0].0@ == named_permute@[0]@);
                    assert(r@[r_before.len() as int + 0].1@ == default_permute@[0]@);
                    assert(r@[0].0@ == named_wrap(required@));
                    assert(r@[0].1@ == named_wrap(default@));
                }
            }
            i += 1;
        }
        proof {
            assert(nv.take(nv.len() as int) == nv);
            assert(pair_views(r@) == cross(nv, dv));
            lemma_cross_len(nv, dv);
            assert(r@.len() == pair_views(r@).len());
            assert(r@.len() == named_total(n) * default_count(m));
        }
    }
    let ghost head = pair_views(r@);
    let ghost r_mid = r@;
    let base = wrap_positional(&required);
    append_right_rows(&mut r, &base, &default_positional_permute);
    proof {
        assert forall|j: int| 0 <= j < pv.len() implies #[trigger] pair_views(r@)[r_mid.len()
            + j] == (positional_wrap(required@), pv[j]) by {
            assert(r@[r_mid.len() + j].0@ == base@);
            assert(r@[r_mid.len() + j].1@ == default_positional_permute@[j]@);
            assert(pv[j] == default_positional_permute@[j]@);
        }
        assert forall|k: int| 0 <= k < r_mid.len() implies #[trigger] pair_views(r@)[k]
            == head[k] by {
            assert(r@[k] == r_mid[k]);
        }
        assert(pair_views(r@).len() == r_mid.len() + pv.len());
        assert forall|k: int| 0 <= k < pair_views(r@).len() implies pair_views(r@)[k] == (head
            + with_base(positional_wrap(required@), pv))[k] by {
            if k < r_mid.len() {
                assert((head + with_base(positional_wrap(required@), pv))[k] == head[k]);
            } else {
                let j = k - r_mid.len();
                assert(pair_views(r@)[r_mid.len() + j] == (positional_wrap(required@), pv[j]));
                assert((head + with_base(positional_wrap(required@), pv))[k] == with_base(
                    positional_wrap(required@),
                    pv,
                )[j]);
            }
        }
        assert(pair_views(r@) =~= head + with_base(positional_wrap(required@), pv));
        assert(pair_views(r@) == spec_permute(required@, default@));
        assert(pv.len() == pos_count(m));
        assert(r@.len() == total_count(n, m));
        assert(0 < r_mid.len());
        assert(r@[0] == r_mid[0]);
        assert forall|k: int| 0 <= k < r@.len() implies variant_covers(
            (#[trigger] r@[k]).0@ + r@[k].1@,
            required@ + default@,
        ) by {
            if k < r_mid.len() {
                assert(r@[k] == r_mid[k]);
            } else {
                let j = k - r_mid.len();
                assert(r@[r_mid.len() + j].0@ == base@);
                assert(r@[r_mid.len() + j].1@ == default_positional_permute@[j]@);
                assert(pv[j] == default_positional_permute@[j]@);
                assert(variant_covers(pv[j], default@));
                lemma_covers_wrap(required@);
                lemma_covers_concat(positional_wrap(required@), required@, pv[j], default@);
            }
        }
    }
    r
}

/// Each tuple-struct row covers the full field list.
#[verifier::rlimit(100)]
proof fn lemma_tuple_row_covers(req: Seq<FunctionParam>, def: Seq<FunctionParam>, k: int)
    requires
        0 <= k <= def.len(),
    ensures
        variant_covers(
            positional_wrap(req) + positional_wrap(def.take(k)) + default_wrap(def.skip(k)),
            req + def,
        ),
{
    let a = positional_wrap(req);
    let b = positional_wrap(def.take(k));
    let c = default_wrap(def.skip(k));
    let v = a + b + c;
    let ps = req + def;
    assert(v.len() == ps.len());
    assert forall|j: int| 0 <= j < ps.len() implies has_slot_named(
        v,
        (#[trigger] ps[j]).name@,
    ) by {
        if j < req.len() {
            assert(v[j] == a[j]);
            assert(inner_of(a[j]) == req[j]);
            assert(ps[j] == req[j]);
        } else if j < req.len() + k {
            let t = j - req.len();
            assert(v[j] == (a + b)[j]);
            assert((a + b)[j] == b[t]);
            assert(inner_of(b[t]) == def.take(k)[t]);
            assert(def.take(k)[t] == def[t]);
            assert(ps[j] == def[t]);
        } else {
            let t = j - req.len() - k;
            assert(v[j] == c[t]);
            assert(inner_of(c[t]) == def.skip(k)[t]);
            assert(def.skip(k)[t] == def[t + k]);
            assert(ps[j] == def[t + k]);
        }
        assert(inner_of(v[j]).name@ == ps[j].name@);
    }
}

/// The tuple-struct matrix: row `i` supplies the required fields and the
/// first `i` defaulted fields positionally, the rest by their defaults.
pub open spec fn tuple_matrix(req: Seq<FunctionParam>, def: Seq<FunctionParam>) -> Seq<
    Seq<PermutedItem>,
> {
    Seq::new(
        def.len() + 1,
        |i: int| positional_wrap(req) + positional_wrap(def.take(i)) + default_wrap(
            def.skip(i),
        ),
    )
}

/// Build one tuple-struct row: prefix length `i` of the defaulted fields.
fn tuple_row(required: &Vec<FunctionParam>, default: &Vec<FunctionParam>, i: usize) -> (row:
    Vec<PermutedItem>)
    requires
        i <= default@.len(),
    ensures
        row@ == positional_wrap(required@) + positional_wrap(default@.take(i as int))
            + default_wrap(default@.skip(i as int)),
{
    let mut row = wrap_positional(required);
    let def_pos = take_params(default, i);
    let def_unused = skip_params(default, i);
    let mut mid = wrap_positional(&def_pos);
    let mut tail = wrap_default(&def_unused);
    row.append(&mut mid);
    row.append(&mut tail);
    row
}

/// Special permutation case for tuple structs.
///
/// Tuple struct elements are positional only: the required fields are always
/// positional, and for each prefix length of the defaulted fields that many
/// more fields are positional while the rest take their defaults. Shapes are
/// ordered by increasing prefix length.
#[verifier::rlimit(100)]
pub fn permute_tuple_struct(required: Vec<FunctionParam>, default: Vec<FunctionParam>) -> (r:
    Vec<Vec<PermutedItem>>)
    ensures
        seq_views(r@) == tuple_matrix(required@, default@),
        r@.len() == default@.len() + 1,
        forall|i: int|
            0 <= i <= default@.len() ==> (#[trigger] r@[i])@ == positional_wrap(required@)
                + positional_wrap(default@.take(i)) + default_wrap(default@.skip(i)),
        all_covered(seq_views(r@), required@ + default@),
{
    let m = default.len();
    let mut r: Vec<Vec<PermutedItem>> = Vec::new();
    let mut i: usize = 0;
    while i < m
        invariant
            i <= m,
            m == default@.len(),
            r@.len() == i,
            forall|k: int|
                0 <= k < i ==> (#[trigger] r@[k])@ == positional_wrap(required@)
                    + positional_wrap(default@.take(k)) + default_wrap(default@.skip(k)),
        decreases m - i,
    {
        let row = tuple_row(&required, &default, i);
        r.push(row);
        i += 1;
    }
    let last = tuple_row(&required, &default, m);
    r.push(last);
    proof {
        assert(r@.len() == default@.len() + 1);
        assert forall|k: int| 0 <= k < seq_views(r@).len() implies seq_views(r@)[k]
            == tuple_matrix(required@, default@)[k] by {
            assert(seq_views(r@)[k] == r@[k]@);
        }
        assert(seq_views(r@) =~= tuple_matrix(required@, default@));
        assert forall|k: int| 0 <= k < seq_views(r@).len() implies variant_covers(
            #[trigger] seq_views(r@)[k],
            required@ + default@,
        ) by {
            assert(seq_views(r@)[k] == r@[k]@);
            assert(r@[k]@ == positional_wrap(required@) + positional_wrap(default@.take(k))
                + default_wrap(default@.skip(k)));
            lemma_tuple_row_covers(required@, default@, k);
        }
    }
    r
}

/// Index of the first slot of `v` named `nm`, or `-1` when there is none.
pub open spec fn find_name(v: Seq<PermutedItem>, nm: Seq<char>) -> int
    decreases v.len(),
{
    if v.len() == 0 {
        -1
    } else if inner_of(v[0]).name@ == nm {
        0
    } else {
        let rest = find_name(v.drop_first(), nm);
        if rest < 0 {
            -1
        } else {
            rest + 1
        }
    }
}

/// When a name occurs, `find_name` returns its first occurrence.
proof fn lemma_find_name_first(v: Seq<PermutedItem>, nm: Seq<char>, i: int)
    requires
        0 <= i < v.len(),
        inner_of(v[i]).name@ == nm,
        forall|ii: int| 0 <= ii < i ==> inner_of(#[trigger] v[ii]).name@ != nm,
    ensures
        find_name(v, nm) == i,
    decreases i,
{
    if i == 0 {
    } else {
        assert(inner_of(v[0]).name@ != nm);
        let rest = v.drop_first();
        assert(rest[i - 1] == v[i]);
        assert forall|ii: int| 0 <= ii < i - 1 implies inner_of(
            #[trigger] rest[ii],
        ).name@ != nm by {
            assert(rest[ii] == v[ii + 1]);
        }
        lemma_find_name_first(rest, nm, i - 1);
    }
}

/// A found index is in bounds and carries the name.
proof fn lemma_find_name_valid(v: Seq<PermutedItem>, nm: Seq<char>)
    requires
        has_slot_named(v, nm),
    ensures
        0 <= find_name(v, nm) < v.len(),
        inner_of(v[find_name(v, nm)]).name@ == nm,
    decreases v.len(),
{
    if v.len() == 0 {
    } else if inner_of(v[0]).name@ == nm {
    } else {
        let rest = v.drop_first();
        let w = choose|i: int| 0 <= i < v.len() && (#[trigger] inner_of(v[i])).name@ == nm;
        assert(w != 0);
        assert(rest[w - 1] == v[w]);
        assert(inner_of(rest[w - 1]).name@ == nm);
        assert(has_slot_named(rest, nm));
        lemma_find_name_valid(rest, nm);
        assert(v[find_name(rest, nm) + 1] == rest[find_name(rest, nm)]);
    }
}

/// `variant` reindexed into the order dictated by `reference`: slot `j`
/// carries the parameter named by `reference[j]`; slots past the reference
/// are kept unchanged.
pub open spec fn canon_spec(reference: Seq<PermutedItem>, variant: Seq<PermutedItem>) -> Seq<
    PermutedItem,
> {
    Seq::new(
        variant.len(),
        |j: int|
            if j < reference.len() {
                variant[find_name(variant, inner_of(reference[j]).name@)]
            } else {
                variant[j]
            },
    )
}

/// Position of the first slot of `variant` whose parameter name equals `nm`.
fn find_slot(variant: &Vec<PermutedItem>, nm: &String) -> (idx: usize)
    requires
        has_slot_named(variant@, nm@),
    ensures
        idx < variant@.len(),
        idx as int == find_name(variant@, nm@),
{
    let mut i: usize = 0;
    while i < variant.len()
        invariant
            i <= variant@.len(),
            has_slot_named(variant@, nm@),
            forall|ii: int| 0 <= ii < i ==> inner_of(#[trigger] variant@[ii]).name@ != nm@,
        decreases variant@.len() - i,
    {
        let cand = variant[i].inner();
        if cand.name == *nm {
            proof {
                lemma_find_name_first(variant@, nm@, i as int);
            }
            return i;
        }
        i += 1;
    }
    proof {
        let w = choose|ii: int|
            0 <= ii < variant@.len() && (#[trigger] inner_of(variant@[ii])).name@ == nm@;
        assert(false);
    }
    0
}

/// Uses the reference pattern to order the slots of a call shape.
///
/// Every slot of `reference` must have a matching-named slot in `variant`.
/// If `variant` has more slots than `reference`, the extra slots are
/// appended to the end unchanged.
pub fn canonical_order(reference: &Vec<PermutedItem>, variant: &Vec<PermutedItem>) -> (r: Vec<
    PermutedItem,
>)
    requires
        reference@.len() <= variant@.len(),
        forall|j: int|
            0 <= j < reference@.len() ==> has_slot_named(
                variant@,
                inner_of(#[trigger] reference@[j]).name@,
            ),
    ensures
        r@ == canon_spec(reference@, variant@),
{
    let mut r: Vec<PermutedItem> = Vec::new();
    let mut j: usize = 0;
    while j < reference.len()
        invariant
            j <= reference@.len() <= variant@.len(),
            forall|jj: int|
                0 <= jj < reference@.len() ==> has_slot_named(
                    variant@,
                    inner_of(#[trigger] reference@[jj]).name@,
                ),
            r@.len() == j,
            forall|jj: int| 0 <= jj < j ==> #[trigger] r@[jj] == canon_spec(
                reference@,
                variant@,
            )[jj],
        decreases reference@.len() - j,
    {
        let slot = reference[j].inner();
        let idx = find_slot(variant, &slot.name);
        r.push(variant[idx].clone());
        j += 1;
    }
    while j < variant.len()
        invariant
            reference@.len() <= j <= variant@.len(),
            r@.len() == j,
            forall|jj: int| 0 <= jj < j ==> #[trigger] r@[jj] == canon_spec(
                reference@,
                variant@,
            )[jj],
        decreases variant@.len() - j,
    {
        r.push(variant[j].clone());
        j += 1;
    }
    proof {
        assert(r@ =~= canon_spec(reference@, variant@));
    }
    r
}

/// Reordering any spanning call shape by the all-named declaration-order
/// reference yields one slot per declared parameter, in declaration order:
/// the argument list built from it has the full parameter count, and its
/// positions follow the declaration.
pub proof fn lemma_canonical_restores_order(
    params: Seq<FunctionParam>,
    variant: Seq<PermutedItem>,
)
    requires
        variant_covers(variant, params),
    ensures
        canon_spec(named_wrap(params), variant).len() == params.len(),
        forall|j: int|
            0 <= j < params.len() ==> inner_of(
                #[trigger] canon_spec(named_wrap(params), variant)[j],
            ).name@ == params[j].name@,
{
    let reference = named_wrap(params);
    let c = canon_spec(reference, variant);
    assert forall|j: int| 0 <= j < params.len() implies inner_of(#[trigger] c[j]).name@
        == params[j].name@ by {
        assert(inner_of(reference[j]).name@ == params[j].name@);
        assert(has_slot_named(variant, params[j].name@));
        lemma_find_name_valid(variant, params[j].name@);
        assert(c[j] == variant[find_name(variant, params[j].name@)]);
    }
}

/// The matrix is a function of the parameter lists alone: any two runs of
/// [`permute`] on equal required and defaulted lists return equal matrices,
/// since each result equals `spec_permute` of its input.
pub proof fn lemma_permute_deterministic(
    req1: Seq<FunctionParam>,
    def1: Seq<FunctionParam>,
    req2: Seq<FunctionParam>,
    def2: Seq<FunctionParam>,
)
    requires
        req1 == req2,
        def1 == def2,
    ensures
        spec_permute(req1, def1) == spec_permute(req2, def2),
{
}

/// The slots of `s` that are named.
pub open spec fn named_only(s: Seq<PermutedItem>) -> Seq<PermutedItem> {
    s.filter(|it: PermutedItem| it is Named)
}

/// The slots of `s` that are omitted defaults.
pub open spec fn default_only(s: Seq<PermutedItem>) -> Seq<PermutedItem> {
    s.filter(|it: PermutedItem| it is Default)
}

impl PermutedItem {
    /// Split the items into used and unused default values while maintaining
    /// order. The items must only contain named and default variants.
    pub fn parition_named_defaults(items: &Vec<PermutedItem>) -> (res: (
        Vec<PermutedItem>,
        Vec<PermutedItem>,
    ))
        requires
            forall|i: int| 0 <= i < items@.len() ==> !((#[trigger] items@[i]) is Positional),
        ensures
            res.0@ == named_only(items@),
            res.1@ == default_only(items@),
    {
        let mut named: Vec<PermutedItem> = Vec::new();
        let mut defaults: Vec<PermutedItem> = Vec::new();
        proof {
            reveal(Seq::filter);
            assert(named@ =~= named_only(items@.take(0)));
            assert(defaults@ =~= default_only(items@.take(0)));
        }
        let mut i: usize = 0;
        while i < items.len()
            invariant
                i <= items@.len(),
                forall|k: int| 0 <= k < items@.len() ==> !((#[trigger] items@[k]) is Positional),
                named@ == named_only(items@.take(i as int)),
                defaults@ == default_only(items@.take(i as int)),
            decreases items@.len() - i,
        {
            match &items[i] {
                PermutedItem::Named(_) => {
                    named.push(items[i].clone());
                },
                PermutedItem::Default(_) => {
                    defaults.push(items[i].clone());
                },
                PermutedItem::Positional(_) => {
                    proof {
                        assert(items@[i as int] is Positional);
                        assert(false);
                    }
                },
            }
            i += 1;
            proof {
                reveal(Seq::filter);
                let t = items@.take(i as int);
                assert(t.drop_last() =~= items@.take(i - 1));
                assert(t.last() == items@[i - 1]);
                assert(named@ =~= named_only(t));
                assert(defaults@ =~= default_only(t));
            }
        }
        proof {
            assert(items@.take(items@.len() as int) == items@);
        }
        (named, defaults)
    }
}

} // verus!
