use defamed::params::FunctionParam;
use defamed::permute::PermutedItem;
use defamed::permute::permute;
use defamed::permute::permute_named;
use defamed::permute::permute_named_default;
use defamed::permute::permute_pos_default;
use defamed::permute::permute_tuple_struct;

/// A required parameter named `name`, with no type text.
fn p(name: &str) -> FunctionParam {
    FunctionParam::required(name.to_string(), String::new())
}

/// Idx to valid rust ident
fn idx_to_str(mut idx: usize) -> String {
    let mut id = vec![];
    if idx == 0 {
        id.push(0);
    }

    while idx != 0 {
        id.push(idx % 26);
        idx /= 26;
    }

    id.into_iter()
        .map(|i| char::from_u32(i as u32 + 97).unwrap())
        .collect::<String>()
}

fn params(names: &[&str]) -> Vec<FunctionParam> {
    names.iter().map(|n| p(n)).collect()
}

fn assert_positional_default_split_at(permutation: &[PermutedItem], split: usize) {
    let (positional, default) = permutation.split_at(split);
    assert!(positional
        .iter()
        .all(|f| matches!(f, PermutedItem::Positional(_))));
    assert!(default
        .iter()
        .all(|f| matches!(f, PermutedItem::Default(_))));
}

#[test]
fn test_permute_tuple_struct() {
    let positional = params(&["a", "b"]);
    let defaults = params(&["c", "d"]);

    let permutations = permute_tuple_struct(positional, defaults);

    assert_eq!(permutations.len(), 3);
    assert_positional_default_split_at(&permutations[0], 2);
    assert_positional_default_split_at(&permutations[1], 3);
    assert_positional_default_split_at(&permutations[2], 4);
}

/// Test inner named permute function
#[test]
fn test_permute_inner_named() {
    let items = params(&["a", "b", "c", "d"]);

    let permutations = permute_named(&items);
    assert_eq!(permutations.len(), 24);

    let _ = permutations
        .into_iter()
        .flatten()
        .map(|item| {
            assert!(matches!(item, PermutedItem::Named(_)));
        })
        .collect::<Vec<_>>();
}

/// Test inner default permute function
#[test]
fn test_permute_inner_named_defaults() {
    let mut items = params(&["a", "b"]);

    let permutations = permute_named_default(&items);

    // 0 0
    // 0 1
    // 1 0
    // 1 1
    // 1 1 again because used defaults have to be permuted
    assert_eq!(permutations.len(), 5);

    let first = permutations.first().unwrap();
    assert!(first
        .iter()
        .all(|item| matches!(item, PermutedItem::Named(_))));
    assert_eq!(
        *first,
        vec![PermutedItem::Named(p("a")), PermutedItem::Named(p("b"))]
    );

    items.clear();
    let permutations = permute_pos_default(&items);
    assert!(permutations.is_empty());
}

#[test]
fn test_permute_inner_named_defaults_9() {
    let items = (0..9).map(idx_to_str).collect::<Vec<_>>();

    for i in 1..=9 {
        let inputs: Vec<FunctionParam> = items[..i]
            .iter()
            .map(|n| p(n))
            .collect();
        let permutations = permute_named_default(&inputs);
        let first = permutations.first().unwrap();

        println!("9 defaults: {} branches", permutations.len());
        println!("first item: {:?}", first);

        let expected = inputs
            .iter()
            .map(|item| PermutedItem::Named(item.clone()))
            .collect::<Vec<_>>();

        assert_eq!(
            expected, *first,
            "first permutation must have the same order as the input"
        );
    }
}

/// Test inner positional defaults permute function
#[test]
fn test_permute_inner_positional_defaults() {
    let items = params(&["a", "b", "c"]);

    let permutations = permute_pos_default(&items);

    // 0 0
    // 0 1
    // 1 0
    // 1 1
    assert_eq!(permutations.len(), 8);
    let first = permutations.first().unwrap();

    assert!(matches!(first[0], PermutedItem::Positional(_)));
    assert!(matches!(first[1], PermutedItem::Named(_)));
    assert!(matches!(first[2], PermutedItem::Named(_)));

    assert_eq!(
        *first,
        vec![
            PermutedItem::Positional(p("a")),
            PermutedItem::Named(p("b")),
            PermutedItem::Named(p("c"))
        ]
    );
}

/// Test full permutation
#[test]
fn test_permute_positional_named() {
    let items = params(&["a", "b", "c", "d"]);

    let permutations = permute(items, vec![]);

    let first_perm = permutations.first().unwrap();

    assert!(
        first_perm
            .0
            .iter()
            .all(|item| matches!(item, PermutedItem::Named(_))),
        "first permutation must contain all named parameters"
    );
    assert!(
        first_perm
            .1
            .iter()
            .all(|item| matches!(item, PermutedItem::Named(_))),
        "first permutation must contain all named parameters"
    );
    let full_perm = [first_perm.0.clone(), first_perm.1.clone()].concat();

    assert_eq!(
        full_perm,
        vec![
            PermutedItem::Named(p("a")),
            PermutedItem::Named(p("b")),
            PermutedItem::Named(p("c")),
            PermutedItem::Named(p("d")),
        ],
        "first permutation must maintain the initial order"
    );
    assert_eq!(permutations.len(), 34);
}

/// Test positional and default parameters
#[test]
fn test_permute_positional_default() {
    let items = params(&["a", "b", "c", "d"]);
    let defaults = params(&["e", "f"]);

    let permutations = permute(items, defaults);

    let first_perm = permutations.first().unwrap();

    assert!(
        first_perm
            .0
            .iter()
            .all(|item| matches!(item, PermutedItem::Named(_))),
        "first permutation must contain all named parameters"
    );
    assert!(
        first_perm
            .1
            .iter()
            .all(|item| matches!(item, PermutedItem::Named(_))),
        "first permutation must contain all named parameters"
    );

    let full_perm = [first_perm.0.clone(), first_perm.1.clone()].concat();
    assert_eq!(
        full_perm,
        vec![
            PermutedItem::Named(p("a")),
            PermutedItem::Named(p("b")),
            PermutedItem::Named(p("c")),
            PermutedItem::Named(p("d")),
            PermutedItem::Named(p("e")),
            PermutedItem::Named(p("f")),
        ],
        "first permutation must maintain the initial order"
    );

    // 5 permutations for default parameters
    // and 3 additional permutations for positional default parameters (not permuted)
    assert_eq!(permutations.len(), 34 * 5 + 3);
}

/// Test 1-10 positional parameters
#[test]
fn test_permute_9_positional() {
    for i in 1..=9 {
        let items = (0..i).map(idx_to_str).collect::<Vec<_>>();
        let items: Vec<FunctionParam> = items.iter().map(|n| p(n)).collect();

        let permutations = permute(items.clone(), vec![]);

        println!("{} positionals: {} branches", i, permutations.len());

        let first_perm = permutations.first().unwrap();
        assert_eq!(
            first_perm.0,
            items.clone()
                .into_iter()
                .map(PermutedItem::Named)
                .collect::<Vec<_>>(),
            "permutation for {} positional params: first permutation must have the same order as the input",
            i
        );
    }
}

/// Test 1-10 default parameters
#[test]
fn test_permute_9_default() {
    for i in 1..=9 {
        let items = (0..i).map(idx_to_str).collect::<Vec<_>>();
        let items: Vec<FunctionParam> = items.iter().map(|n| p(n)).collect();
        let permutations = permute(vec![], items.clone());

        println!("{} defaults: {} branches", i, permutations.len());

        let first_perm = permutations.first().unwrap();
        assert_eq!(
                first_perm.1,
                items.clone()
                    .into_iter()
                    .map(PermutedItem::Default)
                    .collect::<Vec<_>>(),
                "permutation for {} default params: first permutation must have the same order as the input",
                i
            );
    }
}

#[test]
fn test_permute_9_default_positional() {
    let num: usize = 9;

    let items = (0..num).map(idx_to_str).collect::<Vec<_>>();
    let items: Vec<FunctionParam> = items.iter().map(|n| p(n)).collect();

    for i in 0..=num {
        let (pos, def) = items.split_at(i);

        let permutations = permute(pos.to_vec(), def.to_vec());

        println!(
            "pos: {}, def: {}\tbranches: {}",
            pos.len(),
            def.len(),
            permutations.len()
        );

        let first_perm = permutations.first().unwrap();

        assert_eq!(
            first_perm.0,
            pos.iter()
                .map(|item| PermutedItem::Named(item.clone()))
                .collect::<Vec<_>>(),
            "pos: {}, def: {}: first permutation must have the same order as the input",
            pos.len(),
            def.len()
        );
    }
}
