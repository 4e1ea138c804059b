use facet_diff::path::decimal_string;
use facet_diff::{FacetPath, PathMap, Modification};

fn segs(p: &FacetPath) -> Vec<&str> {
    p.segments.iter().map(|s| s.as_str()).collect()
}

#[test]
fn root_is_dollar() {
    assert_eq!(segs(&FacetPath::root()), vec!["$"]);
}

#[test]
fn from_splits_at_dots() {
    assert_eq!(segs(&FacetPath::from("$.a.b")), vec!["$", "a", "b"]);
    assert_eq!(segs(&FacetPath::from("")), vec![""]);
    assert_eq!(segs(&FacetPath::from("a..b")), vec!["a", "", "b"]);
    assert_eq!(segs(&FacetPath::from("a.")), vec!["a", ""]);
    assert_eq!(segs(&FacetPath::from(".")), vec!["", ""]);
    assert_eq!(segs(&FacetPath::from("é.ü")), vec!["é", "ü"]);
    let p: FacetPath = "x.y".into();
    assert_eq!(segs(&p), vec!["x", "y"]);
}

#[test]
fn split_then_join_gives_back_the_string() {
    for s in ["$.a.b", "", "a..b", ".", "abc", "a.b."] {
        assert_eq!(FacetPath::from(s).segments.join("."), s);
    }
}

#[test]
fn join_and_push_concatenate() {
    let a = FacetPath::from("$.a");
    let b = FacetPath::from("b.c");
    let j = a.join(&b);
    assert_eq!(segs(&j), vec!["$", "a", "b", "c"]);
    assert_eq!(segs(&a), vec!["$", "a"]);
    let mut p = a.clone();
    p.push(&b);
    assert_eq!(p, j);
    assert!(p.same_as(&j));
    assert!(!p.same_as(&a));
}

#[test]
fn children_paths() {
    let p = FacetPath::root();
    assert_eq!(segs(&p.index_child(12)), vec!["$", "12"]);
    assert_eq!(segs(&p.label_child("k.v")), vec!["$", "k", "v"]);
}

#[test]
fn decimal_notation() {
    assert_eq!(decimal_string(0), "0");
    assert_eq!(decimal_string(7), "7");
    assert_eq!(decimal_string(10), "10");
    assert_eq!(decimal_string(1203), "1203");
    assert_eq!(decimal_string(usize::MAX), usize::MAX.to_string());
}

#[test]
fn path_map_insert_replaces() {
    let mut m: PathMap<Modification> = PathMap::new();
    assert_eq!(m.len(), 0);
    m.insert(FacetPath::from("$.a"), Modification::U32 { before: 1, after: 2 });
    m.insert(FacetPath::from("$.b"), Modification::U32 { before: 3, after: 4 });
    m.insert(FacetPath::from("$.a"), Modification::U32 { before: 5, after: 6 });
    assert_eq!(m.len(), 2);
    assert_eq!(m.get(&FacetPath::from("$.a")), Some(&Modification::U32 { before: 5, after: 6 }));
    assert!(m.contains_key(&FacetPath::from("$.b")));
    assert!(!m.contains_key(&FacetPath::from("$.c")));
    let (k, v) = m.entry(0);
    assert_eq!(*k, FacetPath::from("$.a"));
    assert_eq!(*v, Modification::U32 { before: 5, after: 6 });
}
