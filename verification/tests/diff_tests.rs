use facet_diff::{DiffType, FacetDiff, FacetPath, Modification, Node, ShapeDiff, Diff};

fn test_facet(field1: u32, field2: &str) -> Node {
    Node::fields(
        "TestFacet",
        false,
        vec![
            ("field1".to_string(), Node::u32(field1)),
            ("field2".to_string(), Node::string(field2)),
        ],
    )
}

fn nested_facet(inner: Node) -> Node {
    Node::fields("NestedFacet", false, vec![("nested_field".to_string(), inner)])
}

fn another_nested_facet(inner: Node, another: u32) -> Node {
    Node::fields(
        "AnotherNestedFacet",
        false,
        vec![
            ("nested_field".to_string(), inner),
            ("another_field".to_string(), Node::u32(another)),
        ],
    )
}

#[test]
fn test_facet_diff() {
    let facet1 = nested_facet(test_facet(42, "Hello"));
    let facet2 = nested_facet(test_facet(43, "World"));

    let diff = facet1.diff(&facet2);

    assert_eq!(
        diff.changes.get(&"$.nested_field.field1".into()).unwrap(),
        &Modification::U32 {
            before: 42,
            after: 43
        }
    );
}

#[test]
fn test_shape_diff() {
    let facet1 = nested_facet(test_facet(42, "Hello"));
    let facet2 = another_nested_facet(test_facet(43, "World"), 100);

    let shape_diff = facet1.shape_diff(&facet2);
    println!("{:?}", shape_diff);
}

#[test]
fn diff_records_string_change() {
    let facet1 = nested_facet(test_facet(42, "Hello"));
    let facet2 = nested_facet(test_facet(43, "World"));
    let diff = facet1.diff(&facet2);
    assert_eq!(diff.changes.len(), 2);
    assert_eq!(
        diff.changes.get(&FacetPath::from("$.nested_field.field2")).unwrap(),
        &Modification::String {
            before: "Hello".to_string(),
            after: "World".to_string()
        }
    );
    assert!(diff.changes.get(&FacetPath::from("$.nested_field")).is_none());
    assert!(diff.changes.get(&FacetPath::from("$")).is_none());
}

#[test]
fn diff_with_itself_is_empty() {
    let facet1 = nested_facet(test_facet(42, "Hello"));
    let facet2 = nested_facet(test_facet(42, "Hello"));
    let diff = facet1.diff(&facet2);
    assert_eq!(diff.changes.len(), 0);
}

#[test]
fn diff_of_changed_bool_fails() {
    let a = Node::fields("Flag", false, vec![("on".to_string(), Node::scalar("bool", true, 1, true))]);
    let b = Node::fields("Flag", false, vec![("on".to_string(), Node::scalar("bool", true, 0, true))]);
    assert!(Diff::try_compare(&a, &b).is_none());
    let c = Node::fields("Flag", false, vec![("on".to_string(), Node::scalar("bool", true, 1, true))]);
    let same = Diff::try_compare(&a, &c).unwrap();
    assert_eq!(same.changes.len(), 0);
}

#[test]
fn diff_of_unsupported_fails() {
    let a = Node::fields(
        "Holder",
        false,
        vec![("x".to_string(), Node { ty: facet_diff::TypeInfo::new("Weird", false), value: facet_diff::Value::Unsupported })],
    );
    let b = nested_facet(test_facet(1, "a"));
    assert!(Diff::try_compare(&a, &b).is_none());
}

#[test]
fn diff_stops_at_shorter_side() {
    let a = Node::list("Vec<u32>", true, vec![Node::u32(1), Node::u32(2), Node::u32(3)]);
    let b = Node::list("Vec<u32>", true, vec![Node::u32(5)]);
    // Same non-scalar type at the root: skipped. Only one pair follows: the
    // last item of `a` (index 2) against the only item of `b`.
    let diff = Diff::compare(&a, &b);
    assert_eq!(diff.changes.len(), 1);
    assert_eq!(
        diff.changes.get(&FacetPath::from("$.2")).unwrap(),
        &Modification::U32 { before: 3, after: 5 }
    );
}

#[test]
fn diff_of_different_root_types_fails() {
    let a = Node::u32(1);
    let b = Node::string("1");
    assert!(Diff::try_compare(&a, &b).is_none());
}

#[test]
fn modification_from_peek() {
    let old = Node::u32(7);
    let new = Node::u32(9);
    let m = Modification::from(facet_diff::ModificationPeek { old_value: &old, new_value: &new });
    assert_eq!(m, Modification::U32 { before: 7, after: 9 });
    let old = Node::string("x");
    let new = Node::string("y");
    let m = Modification::from(facet_diff::ModificationPeek { old_value: &old, new_value: &new });
    assert_eq!(m, Modification::String { before: "x".to_string(), after: "y".to_string() });
    assert!(facet_diff::diff::is_modifiable(&old, &new));
    assert!(!facet_diff::diff::is_modifiable(&old, &Node::u32(1)));
}

#[test]
fn shape_diff_added_removed_modified() {
    let facet1 = nested_facet(test_facet(42, "Hello"));
    let facet2 = another_nested_facet(test_facet(43, "World"), 100);
    let shape_diff = ShapeDiff::compare(&facet1, &facet2);
    // The roots differ in type: modified.
    match shape_diff.changes.get(&FacetPath::from("$")).unwrap() {
        DiffType::Modified(m) => {
            assert_eq!(m.old_value.ty.name, "NestedFacet");
            assert_eq!(m.new_value.ty.name, "AnotherNestedFacet");
        }
        other => panic!("unexpected {:?}", other),
    }
    match shape_diff.changes.get(&FacetPath::from("$.another_field")).unwrap() {
        DiffType::Added(n) => assert!(n.reflect_eq(&Node::u32(100))),
        other => panic!("unexpected {:?}", other),
    }
    match shape_diff.changes.get(&FacetPath::from("$.nested_field.field1")).unwrap() {
        DiffType::Modified(m) => {
            assert!(m.old_value.reflect_eq(&Node::u32(42)));
            assert!(m.new_value.reflect_eq(&Node::u32(43)));
        }
        other => panic!("unexpected {:?}", other),
    }
    assert!(shape_diff.changes.get(&FacetPath::from("$.nested_field")).is_none());
    assert_eq!(shape_diff.changes.len(), 4);

    let swapped = ShapeDiff::compare(&facet2, &facet1);
    match swapped.changes.get(&FacetPath::from("$.another_field")).unwrap() {
        DiffType::Removed(n) => assert!(n.reflect_eq(&Node::u32(100))),
        other => panic!("unexpected {:?}", other),
    }
}

#[test]
fn shape_diff_with_itself_is_empty() {
    let facet1 = another_nested_facet(test_facet(1, "x"), 2);
    let facet2 = another_nested_facet(test_facet(1, "x"), 2);
    let d = facet1.shape_diff(&facet2);
    assert_eq!(d.changes.len(), 0);
}

#[test]
fn shape_diff_of_unsupported_fails() {
    let a = Node { ty: facet_diff::TypeInfo::new("Weird", false), value: facet_diff::Value::Unsupported };
    let b = Node::u32(1);
    assert!(ShapeDiff::try_compare(&a, &b).is_none());
    assert!(ShapeDiff::try_compare(&b, &a).is_none());
}

#[test]
fn diff_of_nan_with_itself_fails() {
    // NaN is unequal to itself, so the pair is reported, and an f64 change
    // cannot be recorded as a modification.
    let a = Node::fields("P", false, vec![("x".to_string(), Node::scalar("f64", true, 0, false))]);
    let b = Node::fields("P", false, vec![("x".to_string(), Node::scalar("f64", true, 0, false))]);
    assert!(Diff::try_compare(&a, &b).is_none());
}

#[test]
fn diff_of_equal_class_scalars_records_nothing() {
    // 0.0 and -0.0 are equal under f64's PartialEq: one class.
    let a = Node::fields("P", false, vec![("x".to_string(), Node::scalar("f64", true, 3, true))]);
    let b = Node::fields("P", false, vec![("x".to_string(), Node::scalar("f64", true, 3, true))]);
    assert_eq!(Diff::compare(&a, &b).changes.len(), 0);
}
