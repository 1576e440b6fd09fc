use defamed::macro_gen::MacroType;
use defamed::macro_gen::acceptor_slots;
use defamed::macro_gen::needs_rest_marker;
use defamed::params::FunctionParam;
use defamed::params::FunctionParams;
use defamed::params::ParamAttr;
use defamed::permute::PermutedItem;
use defamed::permute::canonical_order;
use defamed::permute::permute;
use defamed::permute::permute_tuple_struct;
use defamed::traits::ToDocInfo;

fn req(name: &str, ty: &str) -> FunctionParam {
    FunctionParam::required(name.to_string(), ty.to_string())
}

fn def_expr(name: &str, ty: &str, expr: &str) -> FunctionParam {
    FunctionParam::defaulted(
        name.to_string(),
        ty.to_string(),
        ParamAttr::Value(expr.to_string()),
    )
}

fn def_zero(name: &str, ty: &str) -> FunctionParam {
    FunctionParam::defaulted(name.to_string(), ty.to_string(), ParamAttr::Default)
}

fn names(slots: &[PermutedItem]) -> Vec<String> {
    slots.iter().map(|s| s.inner().name.clone()).collect()
}

#[test]
fn test_first_invalid_param() {
    let fields = FunctionParams::new(vec![
        req("x", "i32"),
        def_zero("y", "i32"),
        req("z", "i32"),
    ]);

    let first_invalid = fields.first_invalid_param();

    println!("first invalid: {:?}", first_invalid);

    assert!(
        matches!(first_invalid, Some(p) if p.name == "z"),
        "last field must be invalid"
    );
}

#[test]
fn test_first_invalid_param_ordered() {
    let fields = FunctionParams::new(vec![
        req("a", "i32"),
        req("b", "u8"),
        def_zero("c", "usize"),
        def_expr("d", "i64", "42"),
    ]);
    assert!(fields.first_invalid_param().is_none());

    let empty = FunctionParams::new(vec![]);
    assert!(empty.first_invalid_param().is_none());
}

/// Full permutation test with positional and named parameters
#[test]
fn test_permute_all_positional_named() {
    let params = FunctionParams::new(vec![
        req("a", "i32"),
        req("b", "u8"),
        req("c", "usize"),
        req("d", "i64"),
    ]);

    let permutations = params.permute_params();

    // 34
    assert_eq!(permutations.len(), 34);
}

#[test]
fn test_all_positional_full() {
    let params = FunctionParams::new(vec![
        // 34 permutations for positional and named
        req("a", "i32"),
        req("b", "u8"),
        req("c", "usize"),
        req("d", "i64"),
        // 5 permutations for default parameters
        // and 3 additional permutations for positional default parameters (not permuted)
        def_zero("e", "i32"),
        def_expr("f", "u8", "1"),
    ]);

    let permutations = params.permute_params();

    println!("{:#?}", permutations[0]);

    assert_eq!(permutations.len(), 34 * 5 + 3);
}

#[test]
fn test_round_trip_variants() {
    let required = vec![req("lhs", "i32"), req("rhs", "i32")];
    let defaulted = vec![
        def_expr("add", "bool", "true"),
        def_zero("divide_result_by", "Option<i32>"),
    ];
    let matrix = permute(required.clone(), defaulted.clone());

    // fully positional `(lhs, rhs)` with both defaults omitted
    let mut found_all_positional = false;
    // fully positional with overrides `(lhs, rhs, add, divide_result_by)`
    let mut found_positional_overrides = false;
    // fully named in a permitted reordering
    let mut found_named_reordered = false;
    for (req_half, def_half) in &matrix {
        let all_pos_req = req_half
            .iter()
            .all(|s| matches!(s, PermutedItem::Positional(_)));
        if all_pos_req
            && def_half
                .iter()
                .all(|s| matches!(s, PermutedItem::Default(_)))
            && names(req_half) == vec!["lhs", "rhs"]
        {
            found_all_positional = true;
        }
        if all_pos_req
            && def_half
                .iter()
                .all(|s| matches!(s, PermutedItem::Positional(_)))
            && names(req_half) == vec!["lhs", "rhs"]
            && names(def_half) == vec!["add", "divide_result_by"]
        {
            found_positional_overrides = true;
        }
        if req_half.iter().all(|s| matches!(s, PermutedItem::Named(_)))
            && def_half.iter().all(|s| matches!(s, PermutedItem::Named(_)))
            && names(req_half) == vec!["rhs", "lhs"]
            && names(def_half) == vec!["divide_result_by", "add"]
        {
            found_named_reordered = true;
        }
    }
    assert!(found_all_positional);
    assert!(found_positional_overrides);
    assert!(found_named_reordered);

    // every shape reorders back to the declaration order
    let reference: Vec<PermutedItem> = required
        .iter()
        .chain(defaulted.iter())
        .map(|q| PermutedItem::Named(q.clone()))
        .collect();
    for (req_half, def_half) in &matrix {
        let full = [req_half.clone(), def_half.clone()].concat();
        let canonical = canonical_order(&reference, &full);
        assert_eq!(canonical.len(), 4);
        assert_eq!(
            names(&canonical),
            vec!["lhs", "rhs", "add", "divide_result_by"]
        );
    }
}

#[test]
fn test_tuple_aggregate_prefixes() {
    let matrix = permute_tuple_struct(
        vec![req("a", "u32")],
        vec![def_zero("b", "u32"), def_expr("c", "char", "'a'")],
    );
    assert_eq!(matrix.len(), 3);
    for (i, row) in matrix.iter().enumerate() {
        assert_eq!(row.len(), 3);
        for (j, slot) in row.iter().enumerate() {
            if j < i + 1 {
                assert!(matches!(slot, PermutedItem::Positional(_)));
            } else {
                assert!(matches!(slot, PermutedItem::Default(_)));
            }
        }
        assert_eq!(names(row), vec!["a", "b", "c"]);
    }
}

#[test]
fn test_acceptor_slots_drop_omitted() {
    let variant = vec![
        PermutedItem::Positional(req("a", "i32")),
        PermutedItem::Named(def_zero("b", "i32")),
        PermutedItem::Default(def_zero("c", "i32")),
    ];
    let tokens = acceptor_slots(&variant);
    assert_eq!(names(&tokens), vec!["a", "b"]);
    assert!(needs_rest_marker(&variant));

    let closed = vec![
        PermutedItem::Positional(req("a", "i32")),
        PermutedItem::Named(def_zero("b", "i32")),
    ];
    assert_eq!(acceptor_slots(&closed).len(), 2);
    assert!(!needs_rest_marker(&closed));
}

#[test]
fn test_doc_info() {
    let d = def_expr("f", "u8", "1").to_doc_info();
    assert_eq!(d.ident, "f");
    assert_eq!(d.ty, "u8");
    assert_eq!(d.default_value.as_deref(), Some("1"));
    assert_eq!(d.render(), "`f`: `u8` = `1` ");

    let d = req("a", "i32").to_doc_info();
    assert_eq!(d.default_value, None);
    assert_eq!(d.render(), "`a`: `i32` ");

    let d = PermutedItem::Default(def_zero("g", "u16")).to_doc_info();
    assert_eq!(d.default_value.as_deref(), Some("Default::default()"));

    assert_eq!(MacroType::Function.doc_prefix(), "fn@");
    assert_eq!(MacroType::Struct.doc_prefix(), "struct@");
    assert_eq!(MacroType::StructTuple.doc_prefix(), "struct@");
}

#[test]
fn test_partition_named_defaults() {
    let items = vec![
        PermutedItem::Named(def_zero("a", "i32")),
        PermutedItem::Default(def_zero("b", "i32")),
        PermutedItem::Named(def_zero("c", "i32")),
    ];
    let (used, unused) = PermutedItem::parition_named_defaults(&items);
    assert_eq!(names(&used), vec!["a", "c"]);
    assert_eq!(names(&unused), vec!["b"]);
}

#[test]
fn test_canonical_order_extras() {
    let reference = vec![PermutedItem::Named(req("a", "i32"))];
    let variant = vec![
        PermutedItem::Named(req("a", "i32")),
        PermutedItem::Positional(def_zero("b", "i32")),
        PermutedItem::Positional(def_zero("c", "i32")),
    ];
    let canonical = canonical_order(&reference, &variant);
    assert_eq!(names(&canonical), vec!["a", "b", "c"]);
}

#[test]
fn test_permute_idempotent() {
    let required = vec![req("a", "i32"), req("b", "u8")];
    let defaulted = vec![def_zero("c", "usize"), def_expr("d", "i64", "42")];

    let first_run = permute(required.clone(), defaulted.clone());
    let second_run = permute(required, defaulted);

    assert_eq!(first_run.len(), second_run.len());
    for (x, y) in first_run.iter().zip(second_run.iter()) {
        assert_eq!(x.0, y.0);
        assert_eq!(x.1, y.1);
        for (sx, sy) in x.0.iter().zip(y.0.iter()) {
            assert_eq!(
                std::mem::discriminant(sx),
                std::mem::discriminant(sy)
            );
        }
    }
}
