use defamed::demo_app::asd;
use defamed::demo_app::some_function;
use defamed::demo_app::something;
use defamed::demo_lib::DefaultStruct;
use defamed::demo_lib::DefaultTupleStruct;
use defamed::demo_lib::complex_function;
use defamed::demo_lib::nested_inner_function;
use defamed::demo_lib::some_root_function;

#[test]
fn test_complex_function() {
    let _ = complex_function(1, 2, true, None);

    assert_eq!(complex_function(10, 5, true, None), 15);
    assert_eq!(complex_function(10, 5, false, None), 5);
    assert_eq!(complex_function(10, 20, true, Some(2)), 15);

    // all arguments can be named
    assert_eq!(complex_function(20, 10, false, Some(2)), 5);
    // positional arguments can be named in any order, but must be provided before default arguments
    assert_eq!(complex_function(20, 10, false, Some(2)), 5);
    assert_eq!(complex_function(20, 10, false, Some(2)), 5);
}

#[test]
fn test_default_struct() {
    let a = DefaultStruct {
        index: 0,
        offset: 0,
        inner: vec![],
    };

    let b = DefaultStruct {
        index: 1,
        offset: 0,
        inner: vec![1, 2, 3],
    };

    let c = DefaultStruct {
        index: 1,
        offset: 1,
        inner: vec![1, 2, 3],
    };

    assert_eq!(a.value_at(), None);
    assert_eq!(b.value_at(), Some(2));
    assert_eq!(c.value_at(), Some(3));
}

#[test]
fn test_default_tuple_struct() {
    let a = DefaultTupleStruct(1, 0, 'a');
    let b = DefaultTupleStruct(1, 2, 'a');
    let c = DefaultTupleStruct(2, 4, 'f');

    assert_eq!(a, DefaultTupleStruct(1, 0, 'a'));
    assert_eq!(b, DefaultTupleStruct(1, 2, 'a'));
    assert_eq!(c, DefaultTupleStruct(2, 4, 'f'));
}

#[test]
fn test_all_default() {
}

#[test]
fn test_negative_division_truncates() {
    assert_eq!(complex_function(-7, 0, true, Some(2)), -3);
    assert_eq!(complex_function(7, 0, true, Some(-2)), -3);
    assert_eq!(complex_function(3, 10, false, Some(3)), -2);
}

#[test]
fn test_some_root_function_concat() {
    let add_default = some_root_function("base", None);
    let add_known = some_root_function("base", Some(" concat"));

    assert_eq!(add_default.as_str(), "base");
    assert_eq!(add_known.as_str(), "base concat");

    let root = defamed::demo_root::some_root_function("base", Some(" concat"));
    assert_eq!(root.as_str(), "base concat");
    assert_eq!(
        defamed::demo_root::some_root_function("", None).as_str(),
        ""
    );
}

#[test]
fn test_nested_inner_function_bits() {
    assert!(nested_inner_function(0b0110, 0b0010, 1));
    assert!(!nested_inner_function(0b0110, 0b0010, 0));
    assert!(nested_inner_function(0xff, 0xff, 7));
    assert!(!nested_inner_function(0xff, 0x7f, 7));
}

#[test]
fn test_sample_app_functions() {
    assert_eq!(asd(0, 20), 0);
    assert_eq!(asd(1, 0), 0);
    something();
    assert_eq!(some_function(true, 10, -10, 1), 0);
    assert_eq!(some_function(false, 100, 0, 2), -50);
    assert!(!defamed::demo_root::some_public_function(1, None));
    let s = defamed::demo_app::SomeStruct {};
    s.some_method();
    defamed::demo_app::info("");
}

#[test]
fn test_value_at_bounds() {
    let d = DefaultStruct {
        index: 2,
        offset: 1,
        inner: vec![9, 8, 7],
    };
    assert_eq!(d.value_at(), None);
    let d = DefaultStruct {
        index: 2,
        offset: 0,
        inner: vec![9, 8, 7],
    };
    assert_eq!(d.value_at(), Some(7));
}
