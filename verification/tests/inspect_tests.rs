use facet_diff::node::{classify, DefKind, ShapeKind, TypeKind};
use facet_diff::{FacetInspect, FacetIterator, FacetPath, Node};

fn test_facet(field1: u32, field2: &str) -> Node {
    Node::fields(
        "TestFacet",
        false,
        vec![
            ("field1".to_string(), Node::u32(field1)),
            ("field2".to_string(), Node::string(field2)),
        ],
    )
}

fn nested_facet(inner: Node) -> Node {
    Node::fields("NestedFacet", false, vec![("nested_field".to_string(), inner)])
}

fn my_enum_unit() -> Node {
    Node::fields("MyEnum", true, vec![])
}

fn my_enum_tuple(a: u32, b: &str) -> Node {
    Node::fields(
        "MyEnum",
        true,
        vec![("0".to_string(), Node::u32(a)), ("1".to_string(), Node::string(b))],
    )
}

fn my_enum_struct(x: u32, y: &str) -> Node {
    Node::fields(
        "MyEnum",
        true,
        vec![("x".to_string(), Node::u32(x)), ("y".to_string(), Node::string(y))],
    )
}

fn i32_node(v: i32) -> Node {
    Node::scalar("i32", true, v as u64, true)
}

fn i32_array(values: &[i32]) -> Node {
    Node::list("[i32; 3]", true, values.iter().map(|v| i32_node(*v)).collect())
}

fn u32_list(name: &str, values: &[u32]) -> Node {
    Node::list(name, true, values.iter().map(|v| Node::u32(*v)).collect())
}

fn i32_map(entries: &[(&str, i32)]) -> Node {
    Node::entries(
        "HashMap<String, i32>",
        true,
        entries.iter().map(|(k, v)| (k.to_string(), i32_node(*v))).collect(),
    )
}

/// Advances the inspection until a visit satisfies `pred`, as `Iterator::any` does.
fn any_visit(iter: &mut FacetIterator<'_>, pred: impl Fn(&FacetPath, &Node) -> bool) -> bool {
    while let Some((path, peek)) = iter.next() {
        if pred(&path, peek) {
            return true;
        }
    }
    false
}

fn collect_visits<'a>(mut iter: FacetIterator<'a>) -> Vec<(FacetPath, &'a Node)> {
    let mut out = Vec::new();
    while let Some(v) = iter.next() {
        out.push(v);
    }
    out
}

#[test]
fn test_facet_iterator_struct() {
    let facet = nested_facet(test_facet(42, "Hello"));
    let field1 = Node::u32(42);
    let field2 = Node::string("Hello");

    let mut iter = facet.inspect();

    let iterator_contains_field1 = any_visit(&mut iter, |path, peek| {
        *path == FacetPath::from("$.nested_field.field1") && peek.reflect_eq(&field1)
    });

    let iterator_contains_field2 = any_visit(&mut iter, |path, peek| {
        *path == FacetPath::from("$.nested_field.field2") && peek.reflect_eq(&field2)
    });

    assert!(iterator_contains_field1);
    assert!(iterator_contains_field2);
}

#[test]
fn test_get_peek_by_path_struct() {
    let facet = test_facet(42, "Hello");

    let peek1 = facet.get(&FacetPath::from("$.field1")).unwrap();
    let peek2 = facet.get(&FacetPath::from("$.field2")).unwrap();

    assert!(peek1.reflect_eq(&Node::u32(42)));
    assert!(peek2.reflect_eq(&Node::string("Hello")));
}

#[test]
fn test_facet_iterator_enum_unit() {
    let facet = my_enum_unit();
    let mut iter = facet.inspect();
    assert!(any_visit(&mut iter, |p, _| *p == FacetPath::from("$")));
}

#[test]
fn test_facet_iterator_enum_tuple() {
    let facet = my_enum_tuple(42, "hello");
    let mut iter = facet.inspect();
    assert!(any_visit(&mut iter, |p, peek| *p == FacetPath::from("$.0")
        && peek.reflect_eq(&Node::u32(42))));
    assert!(any_visit(&mut iter, |p, peek| *p == FacetPath::from("$.1")
        && peek.reflect_eq(&Node::string("hello"))));
}

#[test]
fn test_facet_iterator_enum_struct() {
    let facet = my_enum_struct(7, "abc");
    let mut iter = facet.inspect();
    assert!(any_visit(&mut iter, |p, peek| *p == FacetPath::from("$.x")
        && peek.reflect_eq(&Node::u32(7))));
    assert!(any_visit(&mut iter, |p, peek| *p == FacetPath::from("$.y")
        && peek.reflect_eq(&Node::string("abc"))));
}

#[test]
fn test_get_peek_by_path_enum_variants() {
    // Struct variant
    let facet = my_enum_struct(99, "zzz");
    let peek_x = facet.get(&FacetPath::from("$.x")).unwrap();
    let peek_y = facet.get(&FacetPath::from("$.y")).unwrap();
    assert!(peek_x.reflect_eq(&Node::u32(99)));
    assert!(peek_y.reflect_eq(&Node::string("zzz")));

    // Tuple variant
    let facet = my_enum_tuple(123, "tupleval");
    let peek_0 = facet.get(&FacetPath::from("$.0")).unwrap();
    let peek_1 = facet.get(&FacetPath::from("$.1")).unwrap();
    assert!(peek_0.reflect_eq(&Node::u32(123)));
    assert!(peek_1.reflect_eq(&Node::string("tupleval")));

    // Unit variant (should only have root path)
    let facet = my_enum_unit();
    let peek_root = facet.get(&FacetPath::from("$")).unwrap();
    // For unit, just check that we get a Peek and it matches itself
    assert!(peek_root.reflect_eq(&facet));
}

#[test]
fn test_facet_iterator_array() {
    let arr = i32_array(&[10, 20, 30]);
    let iter = arr.inspect();

    let items = collect_visits(iter.clone());
    println!("{:?}", items);

    assert!(any_visit(&mut iter.clone(), |p, peek| *p == FacetPath::from("$.0")
        && peek.reflect_eq(&i32_node(10))));
    assert!(any_visit(&mut iter.clone(), |p, peek| *p == FacetPath::from("$.1")
        && peek.reflect_eq(&i32_node(20))));
    assert!(any_visit(&mut iter.clone(), |p, peek| *p == FacetPath::from("$.2")
        && peek.reflect_eq(&i32_node(30))));
}

#[test]
fn test_facet_iterator_vec() {
    let vec = Node::list(
        "Vec<String>",
        true,
        vec![Node::string("a"), Node::string("b")],
    );
    let iter = vec.inspect();
    assert!(any_visit(&mut iter.clone(), |p, peek| {
        *p == FacetPath::from("$.0") && peek.reflect_eq(&Node::string("a"))
    }));
    assert!(any_visit(&mut iter.clone(), |p, peek| {
        *p == FacetPath::from("$.1") && peek.reflect_eq(&Node::string("b"))
    }));
}

#[test]
fn test_facet_iterator_slice() {
    let slice = u32_list("&[u32]", &[5, 6, 7]);
    let iter = slice.inspect();

    println!("{:?}", collect_visits(iter.clone()));

    assert!(any_visit(&mut iter.clone(), |p, peek| *p == FacetPath::from("$.0")
        && peek.reflect_eq(&Node::u32(5))));
    assert!(any_visit(&mut iter.clone(), |p, peek| *p == FacetPath::from("$.1")
        && peek.reflect_eq(&Node::u32(6))));
    assert!(any_visit(&mut iter.clone(), |p, peek| *p == FacetPath::from("$.2")
        && peek.reflect_eq(&Node::u32(7))));
}

#[test]
fn test_facet_iterator_map() {
    let map = i32_map(&[("foo", 123), ("bar", 456)]);
    let iter = map.inspect();
    assert!(any_visit(&mut iter.clone(), |p, peek| *p == FacetPath::from("$.foo")
        && peek.reflect_eq(&i32_node(123))));
    assert!(any_visit(&mut iter.clone(), |p, peek| *p == FacetPath::from("$.bar")
        && peek.reflect_eq(&i32_node(456))));
}

#[test]
fn test_get_peek_by_path_array_vec_slice_map() {
    let arr = i32_array(&[1, 2, 3]);
    assert!(arr.get(&FacetPath::from("$.0")).unwrap().reflect_eq(&i32_node(1)));
    assert!(arr.get(&FacetPath::from("$.2")).unwrap().reflect_eq(&i32_node(3)));

    let vec = Node::list("Vec<i32>", true, vec![i32_node(9), i32_node(8), i32_node(7)]);
    assert!(vec.get(&FacetPath::from("$.1")).unwrap().reflect_eq(&i32_node(8)));

    let slice = u32_list("&[u32]", &[4, 5]);
    assert!(FacetInspect::get(&slice, &FacetPath::from("$.0"))
        .unwrap()
        .reflect_eq(&Node::u32(4)));

    let map = i32_map(&[("k1", 11), ("k2", 22)]);
    assert!(FacetInspect::get(&map, &FacetPath::from("$.k1"))
        .unwrap()
        .reflect_eq(&i32_node(11)));
    assert!(FacetInspect::get(&map, &FacetPath::from("$.k2"))
        .unwrap()
        .reflect_eq(&i32_node(22)));
}

fn path_strings(visits: &[(FacetPath, &Node)]) -> Vec<String> {
    visits.iter().map(|(p, _)| p.segments.join(".")).collect()
}

#[test]
fn inspection_order_fields_in_order_lists_last_first() {
    let facet = Node::fields(
        "S",
        false,
        vec![
            ("a".to_string(), u32_list("Vec<u32>", &[1, 2])),
            ("b".to_string(), Node::u32(3)),
        ],
    );
    let visits = collect_visits(facet.inspect());
    assert_eq!(path_strings(&visits), vec!["$", "$.a", "$.a.1", "$.a.0", "$.b"]);
    // Every value is visited once.
    assert_eq!(visits.len(), 5);
}

#[test]
fn map_keys_with_dots_give_several_segments() {
    let map = i32_map(&[("a.b", 1)]);
    let visits = collect_visits(map.inspect());
    assert_eq!(visits[1].0.segments, vec!["$", "a", "b"]);
    assert!(map.get(&FacetPath::from("$.a.b")).unwrap().reflect_eq(&i32_node(1)));
}

#[test]
fn get_missing_path_is_none() {
    let facet = test_facet(1, "x");
    assert!(facet.get(&FacetPath::from("$.field3")).is_none());
    assert!(facet.get(&FacetPath::from("field1")).is_none());
}

#[test]
fn get_returns_first_visit() {
    // Two entries whose keys give the same path: the first one visited wins;
    // map entries are visited last first.
    let map = i32_map(&[("k", 1), ("k", 2)]);
    assert!(map.get(&FacetPath::from("$.k")).unwrap().reflect_eq(&i32_node(2)));
}

#[test]
fn unsupported_value_is_detected_before_next() {
    let facet = Node::fields(
        "Holder",
        false,
        vec![("x".to_string(), Node { ty: facet_diff::TypeInfo::new("Weird", false), value: facet_diff::Value::Unsupported })],
    );
    let mut iter = facet.inspect();
    assert!(!iter.next_is_unsupported());
    let (p, _) = iter.next().unwrap();
    assert_eq!(p, FacetPath::root());
    assert!(iter.next_is_unsupported());
    assert!(!iter.is_done());
}

#[test]
fn opaque_value_has_no_children() {
    let facet = Node { ty: facet_diff::TypeInfo::new("&u8", false), value: facet_diff::Value::Opaque };
    let visits = collect_visits(facet.inspect());
    assert_eq!(visits.len(), 1);
}

#[test]
fn value_unequal_to_itself_is_not_reflect_equal() {
    let nan = Node::scalar("f64", true, 0, false);
    assert!(!nan.reflect_eq(&nan.duplicate()));
    let list = Node::list("Vec<f64>", true, vec![Node::scalar("f64", true, 1, true), nan.duplicate()]);
    assert!(!list.reflect_eq(&list.duplicate()));
    let plain = Node::list("Vec<f64>", true, vec![Node::scalar("f64", true, 1, true)]);
    assert!(plain.reflect_eq(&plain.duplicate()));
}

#[test]
fn classify_follows_definition_then_type() {
    assert_eq!(classify(DefKind::Scalar, TypeKind::Struct), ShapeKind::Scalar);
    assert_eq!(classify(DefKind::List, TypeKind::Other), ShapeKind::ListLike);
    assert_eq!(classify(DefKind::Array, TypeKind::Other), ShapeKind::ListLike);
    assert_eq!(classify(DefKind::Slice, TypeKind::Other), ShapeKind::ListLike);
    assert_eq!(classify(DefKind::Keyed, TypeKind::Struct), ShapeKind::Entries);
    assert_eq!(classify(DefKind::Other, TypeKind::Struct), ShapeKind::Struct);
    assert_eq!(classify(DefKind::Other, TypeKind::Enum), ShapeKind::Enum);
    assert_eq!(classify(DefKind::Other, TypeKind::Sequence), ShapeKind::ListLike);
    assert_eq!(classify(DefKind::Other, TypeKind::Reference { to_sequence: true }), ShapeKind::ListLike);
    assert_eq!(classify(DefKind::Other, TypeKind::Reference { to_sequence: false }), ShapeKind::Opaque);
    assert_eq!(classify(DefKind::Other, TypeKind::Other), ShapeKind::Unsupported);
}
