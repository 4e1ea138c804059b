use vstd::prelude::*;

use crate::inspect::{
    inspection, lemma_step_smaller, lemma_walk_unfold, stack_size, walk, FacetInspect, FacetIterator,
    Visit,
};
use crate::node::{self_equal, Node, NodeView, Scalar, ScalarView, Value, ValueView};
use crate::path::{FacetPath, PathView};
use crate::path_map::PathMap;

verus! {

/// A change of a scalar value: what it was before and what it is after.
#[derive(Debug, PartialEq, Eq, Clone)]
pub enum Modification {
    U32 { before: u32, after: u32 },
    String { before: String, after: String },
}

pub enum ModificationView {
    U32 { before: u32, after: u32 },
    String { before: Seq<char>, after: Seq<char> },
}

impl View for Modification {
    type V = ModificationView;

    open spec fn view(&self) -> ModificationView {
        match self {
            Modification::U32 { before, after } => ModificationView::U32 {
                before: *before,
                after: *after,
            },
            Modification::String { before, after } => ModificationView::String {
                before: before@,
                after: after@,
            },
        }
    }
}

/// The two values at a path that changed.
#[derive(Debug)]
pub struct ModificationPeek<'a> {
    pub old_value: &'a Node,
    pub new_value: &'a Node,
}

/// Whether a change from `a` to `b` can be recorded as a `Modification`: both
/// are `u32`, or both are `String`.
pub open spec fn modifiable(a: NodeView, b: NodeView) -> bool {
    match (a.value, b.value) {
        (ValueView::Scalar(ScalarView::U32(_)), ValueView::Scalar(ScalarView::U32(_))) => true,
        (ValueView::Scalar(ScalarView::Str(_)), ValueView::Scalar(ScalarView::Str(_))) => true,
        _ => false,
    }
}

/// The modification that records a change from `a` to `b`.
pub open spec fn modification_of(a: NodeView, b: NodeView) -> ModificationView
    recommends
        modifiable(a, b),
{
    match (a.value, b.value) {
        (ValueView::Scalar(ScalarView::U32(x)), ValueView::Scalar(ScalarView::U32(y))) => {
            ModificationView::U32 { before: x, after: y }
        },
        (ValueView::Scalar(ScalarView::Str(x)), ValueView::Scalar(ScalarView::Str(y))) => {
            ModificationView::String { before: x, after: y }
        },
        _ => arbitrary(),
    }
}

/// Whether a comparison reports the pair of values found at one path: they
/// differ, and the difference does not lie deeper inside two values of the
/// same non-scalar type.
pub open spec fn reported(a: NodeView, b: NodeView) -> bool {
    !a.reflect_eq(b) && !(a.same_type(b) && !a.is_scalar())
}

/// Whether step `i` of comparing the inspections `w1` and `w2` side by side
/// fails: the step is reached, and one of the two values is unsupported, or the
/// pair is reported but cannot be recorded as a modification.
pub open spec fn panics_at(w1: Seq<Visit>, w2: Seq<Visit>, i: int) -> bool {
    &&& 0 <= i < w1.len()
    &&& i <= w2.len()
    &&& {
        ||| !w1[i].1.is_supported()
        ||| i < w2.len() && !w2[i].1.is_supported()
        ||| i < w2.len() && reported(w1[i].1, w2[i].1) && !modifiable(w1[i].1, w2[i].1)
    }
}

/// Whether comparing the inspections `w1` and `w2` side by side fails.
pub open spec fn compare_panics(w1: Seq<Visit>, w2: Seq<Visit>) -> bool {
    exists|i: int| panics_at(w1, w2, i)
}

/// The number of pairs that comparing `w1` and `w2` side by side visits.
pub open spec fn pair_count(w1: Seq<Visit>, w2: Seq<Visit>) -> nat {
    if w1.len() <= w2.len() {
        w1.len()
    } else {
        w2.len()
    }
}

/// The changes found in the first `n` pairs of `w1` and `w2`: each reported
/// pair is recorded under the path of its first value, a later pair under the
/// same path replacing an earlier one.
pub open spec fn diff_changes(w1: Seq<Visit>, w2: Seq<Visit>, n: nat) -> Map<
    PathView,
    ModificationView,
>
    decreases n,
{
    if n == 0 {
        Map::empty()
    } else {
        let m = diff_changes(w1, w2, (n - 1) as nat);
        let a = w1[n - 1];
        let b = w2[n - 1];
        if reported(a.1, b.1) {
            m.insert(a.0, modification_of(a.1, b.1))
        } else {
            m
        }
    }
}

/// The changes between two values of the same type.
#[derive(Debug)]
pub struct Diff {
    pub changes: PathMap<Modification>,
}

/// Whether a change from `a` to `b` can be recorded as a `Modification`.
pub fn is_modifiable(a: &Node, b: &Node) -> (r: bool)
    ensures
        r == modifiable(a@, b@),
{
    match (&a.value, &b.value) {
        (Value::Scalar(Scalar::U32(_)), Value::Scalar(Scalar::U32(_))) => true,
        (Value::Scalar(Scalar::Str(_)), Value::Scalar(Scalar::Str(_))) => true,
        _ => false,
    }
}

/// Whether a comparison reports the pair `a`, `b`.
pub fn is_reported(a: &Node, b: &Node) -> (r: bool)
    ensures
        r == reported(a@, b@),
{
    if a.reflect_eq(b) {
        false
    } else if a.same_type(b) && !a.is_scalar() {
        false
    } else {
        true
    }
}

impl Modification {
    /// The modification that records the change from the old value to the new.
    pub fn from<'a>(peek: ModificationPeek<'a>) -> (m: Modification)
        requires
            modifiable(peek.old_value@, peek.new_value@),
        ensures
            m@ == modification_of(peek.old_value@, peek.new_value@),
    {
        let old_value = peek.old_value;
        let new_value = peek.new_value;
        match (&old_value.value, &new_value.value) {
            (Value::Scalar(Scalar::U32(before)), Value::Scalar(Scalar::U32(after))) => {
                Modification::U32 { before: *before, after: *after }
            },
            (Value::Scalar(Scalar::Str(before)), Value::Scalar(Scalar::Str(after))) => {
                Modification::String { before: before.clone(), after: after.clone() }
            },
            _ => {
                assert(false);
                Modification::U32 { before: 0, after: 0 }
            },
        }
    }
}

proof fn lemma_walk_step(before: Seq<Visit>, after: Seq<Visit>, w: Seq<Visit>, k: int)
    requires
        before.len() > 0,
        after == before.drop_last() + crate::inspect::children(before.last().0, before.last().1),
        walk(before) == w.skip(k),
        0 <= k <= w.len(),
    ensures
        k < w.len(),
        w[k] == before.last(),
        walk(after) == w.skip(k + 1),
        stack_size(after) < stack_size(before),
{
    lemma_walk_unfold(before);
    lemma_step_smaller(before);
    assert(w.skip(k).len() > 0);
    assert(w.skip(k)[0] == w[k]);
    assert(w.skip(k).drop_first() =~= w.skip(k + 1));
}

proof fn lemma_walk_done(it: Seq<Visit>, w: Seq<Visit>, k: int)
    requires
        it.len() == 0,
        walk(it) == w.skip(k),
        0 <= k <= w.len(),
    ensures
        k == w.len(),
{
    lemma_walk_unfold(it);
    assert(w.skip(k).len() == 0);
}

impl Diff {
    /// Compares two values side by side, or says that the comparison fails.
    ///
    /// Both values are inspected in step; each pair of values visited at the
    /// same step is compared until either inspection ends. A pair that is equal,
    /// or of one non-scalar type (the difference lies deeper), is skipped;
    /// any other is recorded as a modification under the path of the first
    /// value. `None` comes exactly when the comparison would meet an unsupported
    /// value or a change that is not between two `u32` or two `String`.
    pub fn try_compare(facet1: &Node, facet2: &Node) -> (r: Option<Diff>)
        ensures
            r is None <==> compare_panics(inspection(facet1@), inspection(facet2@)),
            r matches Some(d) ==> d.changes@ == diff_changes(
                inspection(facet1@),
                inspection(facet2@),
                pair_count(inspection(facet1@), inspection(facet2@)),
            ),
    {
        let ghost w1 = inspection(facet1@);
        let ghost w2 = inspection(facet2@);
        let mut changes: PathMap<Modification> = PathMap::new();
        let mut it1 = facet1.inspect();
        let mut it2 = facet2.inspect();
        let ghost mut k: int = 0;
        assert(w1.skip(0) =~= w1);
        assert(w2.skip(0) =~= w2);
        loop
            invariant_except_break
                w1 == inspection(facet1@),
                w2 == inspection(facet2@),
                0 <= k <= w1.len(),
                k <= w2.len(),
                walk(it1@) == w1.skip(k),
                walk(it2@) == w2.skip(k),
                changes@ == diff_changes(w1, w2, k as nat),
                forall|i: int| 0 <= i < k ==> !panics_at(w1, w2, i),
            ensures
                changes@ == diff_changes(w1, w2, pair_count(w1, w2)),
                forall|i: int| !panics_at(w1, w2, i),
            decreases stack_size(it1@),
        {
            if it1.is_done() {
                proof {
                    lemma_walk_done(it1@, w1, k);
                    assert(k == pair_count(w1, w2));
                    assert forall|i: int| !panics_at(w1, w2, i) by {
                        if 0 <= i < k {
                        }
                    }
                }
                break;
            }
            if it1.next_is_unsupported() {
                proof {
                    lemma_walk_unfold(it1@);
                    assert(w1.skip(k)[0] == w1[k]);
                    assert(panics_at(w1, w2, k));
                }
                return None;
            }
            let ghost before1 = it1@;
            let (path1, peek1) = match it1.next() {
                Some(v) => v,
                None => {
                    assert(false);
                    return None;
                },
            };
            proof {
                lemma_walk_step(before1, it1@, w1, k);
            }
            if it2.is_done() {
                proof {
                    lemma_walk_done(it2@, w2, k);
                    assert(k == pair_count(w1, w2));
                    assert forall|i: int| !panics_at(w1, w2, i) by {
                        if 0 <= i < k {
                        } else if i == k {
                            assert(w1[k].1.is_supported());
                        }
                    }
                }
                break;
            }
            if it2.next_is_unsupported() {
                proof {
                    lemma_walk_unfold(it2@);
                    assert(w2.skip(k)[0] == w2[k]);
                    assert(panics_at(w1, w2, k));
                }
                return None;
            }
            let ghost before2 = it2@;
            let (_path2, peek2) = match it2.next() {
                Some(v) => v,
                None => {
                    assert(false);
                    return None;
                },
            };
            proof {
                lemma_walk_step(before2, it2@, w2, k);
            }
            if is_reported(peek1, peek2) {
                if !is_modifiable(peek1, peek2) {
                    assert(panics_at(w1, w2, k));
                    return None;
                }
                let modif = ModificationPeek { old_value: peek1, new_value: peek2 };
                changes.insert(path1, Modification::from(modif));
            }
            proof {
                assert(!panics_at(w1, w2, k));
                k = k + 1;
            }
        }
        Some(Diff { changes })
    }

    /// Compares two values side by side (see `try_compare`), on values for which
    /// the comparison does not fail.
    pub fn compare(facet1: &Node, facet2: &Node) -> (d: Diff)
        requires
            !compare_panics(inspection(facet1@), inspection(facet2@)),
        ensures
            d.changes@ == diff_changes(
                inspection(facet1@),
                inspection(facet2@),
                pair_count(inspection(facet1@), inspection(facet2@)),
            ),
    {
        match Diff::try_compare(facet1, facet2) {
            Some(d) => d,
            None => {
                assert(false);
                Diff { changes: PathMap::new() }
            },
        }
    }
}

} // verus!

verus! {

/// How a path differs between two values of possibly different types.
#[derive(Debug)]
pub enum DiffType<'a> {
    Added(&'a Node),
    Removed(&'a Node),
    Modified(ModificationPeek<'a>),
}

pub enum DiffTypeView {
    Added(NodeView),
    Removed(NodeView),
    Modified { old_value: NodeView, new_value: NodeView },
}

impl<'a> View for DiffType<'a> {
    type V = DiffTypeView;

    open spec fn view(&self) -> DiffTypeView {
        match self {
            DiffType::Added(n) => DiffTypeView::Added(n@),
            DiffType::Removed(n) => DiffTypeView::Removed(n@),
            DiffType::Modified(m) => DiffTypeView::Modified {
                old_value: m.old_value@,
                new_value: m.new_value@,
            },
        }
    }
}

/// The changes between two values whose types may differ: paths present on one
/// side only, and paths whose values differ.
#[derive(Debug)]
pub struct ShapeDiff<'a> {
    pub changes: PathMap<DiffType<'a>>,
}

/// The value last visited at each path of `w`.
pub open spec fn last_visits(w: Seq<Visit>) -> Map<PathView, NodeView>
    decreases w.len(),
{
    if w.len() == 0 {
        Map::empty()
    } else {
        last_visits(w.drop_last()).insert(w.last().0, w.last().1)
    }
}

/// How path `p` differs between the values `m1` and `m2` hold there, if at all.
pub open spec fn shape_change(
    m1: Map<PathView, NodeView>,
    m2: Map<PathView, NodeView>,
    p: PathView,
) -> Option<DiffTypeView> {
    if m1.contains_key(p) && m2.contains_key(p) {
        if m1[p].reflect_eq(m2[p]) || (m1[p].same_type(m2[p]) && !m1[p].is_scalar()) {
            None
        } else {
            Some(DiffTypeView::Modified { old_value: m1[p], new_value: m2[p] })
        }
    } else if m1.contains_key(p) {
        Some(DiffTypeView::Removed(m1[p]))
    } else if m2.contains_key(p) {
        Some(DiffTypeView::Added(m2[p]))
    } else {
        None
    }
}

/// The changes between the values visited by `w1` and by `w2`, path by path.
pub open spec fn shape_changes(w1: Seq<Visit>, w2: Seq<Visit>) -> Map<PathView, DiffTypeView> {
    let m1 = last_visits(w1);
    let m2 = last_visits(w2);
    Map::new(|p: PathView| shape_change(m1, m2, p) is Some, |p: PathView| shape_change(m1, m2, p)->0)
}

/// Whether every value that `w` visits is supported.
pub open spec fn all_supported(w: Seq<Visit>) -> bool {
    forall|i: int| 0 <= i < w.len() ==> (#[trigger] w[i]).1.is_supported()
}

/// Each path of an inspection and the value last visited there, or `None`
/// when the inspection meets an unsupported value.
fn collect_visits<'a>(node: &'a Node) -> (r: Option<PathMap<&'a Node>>)
    ensures
        r is None <==> !all_supported(inspection(node@)),
        r matches Some(m) ==> m@ == last_visits(inspection(node@)),
{
    let ghost w = inspection(node@);
    let mut it = node.inspect();
    let mut map: PathMap<&'a Node> = PathMap::new();
    let ghost mut k: int = 0;
    assert(w.skip(0) =~= w);
    assert(w.take(0) =~= Seq::<Visit>::empty());
    loop
        invariant
            w == inspection(node@),
            0 <= k <= w.len(),
            walk(it@) == w.skip(k),
            map@ == last_visits(w.take(k)),
            forall|i: int| 0 <= i < k ==> (#[trigger] w[i]).1.is_supported(),
        decreases stack_size(it@),
    {
        if it.is_done() {
            proof {
                lemma_walk_done(it@, w, k);
                assert(w.take(k) =~= w);
            }
            return Some(map);
        }
        if it.next_is_unsupported() {
            proof {
                lemma_walk_unfold(it@);
                assert(w.skip(k)[0] == w[k]);
            }
            return None;
        }
        let ghost before = it@;
        match it.next() {
            Some((path, peek)) => {
                proof {
                    lemma_walk_step(before, it@, w, k);
                    assert(w.take(k + 1).drop_last() =~= w.take(k));
                    assert(w.take(k + 1).last() == w[k]);
                }
                map.insert(path, peek);
                proof {
                    k = k + 1;
                }
            },
            None => {
                assert(false);
                return None;
            },
        }
    }
}

proof fn lemma_take_contains(s: Seq<PathView>, i: int)
    requires
        0 <= i < s.len(),
    ensures
        forall|p: PathView| #[trigger] s.take(i + 1).contains(p) <==> (s.take(i).contains(p) || p == s[i]),
{
    assert forall|p: PathView| #[trigger] s.take(i + 1).contains(p) <==> (s.take(i).contains(p) || p == s[i]) by {
        if s.take(i + 1).contains(p) {
            let j = choose|j: int| 0 <= j < i + 1 && #[trigger] s.take(i + 1)[j] == p;
            if j < i {
                assert(s.take(i)[j] == p);
            }
        }
        if s.take(i).contains(p) {
            let j = choose|j: int| 0 <= j < i && #[trigger] s.take(i)[j] == p;
            assert(s.take(i + 1)[j] == p);
        }
        if p == s[i] {
            assert(s.take(i + 1)[i] == p);
        }
    }
}

/// How `path` differs between the two collected inspections, if at all.
fn change_at<'a>(m1: &PathMap<&'a Node>, m2: &PathMap<&'a Node>, path: &FacetPath) -> (r: Option<
    DiffType<'a>,
>)
    ensures
        match r {
            Some(d) => shape_change(m1@, m2@, path@) == Some(d@),
            None => shape_change(m1@, m2@, path@) is None,
        },
{
    match (m1.get(path), m2.get(path)) {
        (Some(p1), Some(p2)) => {
            let p1: &'a Node = *p1;
            let p2: &'a Node = *p2;
            if p1.reflect_eq(p2) {
                None
            } else if p1.same_type(p2) && !p1.is_scalar() {
                None
            } else {
                Some(DiffType::Modified(ModificationPeek { old_value: p1, new_value: p2 }))
            }
        },
        (Some(p1), None) => Some(DiffType::Removed(*p1)),
        (None, Some(p2)) => Some(DiffType::Added(*p2)),
        (None, None) => None,
    }
}

impl<'a> ShapeDiff<'a> {
    /// Compares two values, of possibly different types, path by path, or says
    /// that the comparison fails.
    ///
    /// Each value is inspected whole and each path keeps the value last visited
    /// there. A path on the first side only is `Removed`, on the second only
    /// `Added`; a path on both sides whose values differ, and do not share a
    /// non-scalar type, is `Modified`. `None` comes exactly when an inspection
    /// meets an unsupported value.
    pub fn try_compare(facet1: &'a Node, facet2: &'a Node) -> (r: Option<ShapeDiff<'a>>)
        ensures
            r is None <==> !(all_supported(inspection(facet1@)) && all_supported(
                inspection(facet2@),
            )),
            r matches Some(d) ==> d.changes@ == shape_changes(
                inspection(facet1@),
                inspection(facet2@),
            ),
    {
        let m1 = match collect_visits(facet1) {
            Some(m) => m,
            None => return None,
        };
        let m2 = match collect_visits(facet2) {
            Some(m) => m,
            None => return None,
        };
        let ghost target = shape_changes(inspection(facet1@), inspection(facet2@));
        let mut changes: PathMap<DiffType<'a>> = PathMap::new();
        let n1 = m1.len();
        for i in 0..n1
            invariant
                n1 == m1.key_seq().len(),
                forall|p: PathView| #[trigger] m1@.contains_key(p) <==> m1.key_seq().contains(p),
                target == shape_changes(inspection(facet1@), inspection(facet2@)),
                m1@ == last_visits(inspection(facet1@)),
                m2@ == last_visits(inspection(facet2@)),
                forall|p: PathView| #[trigger] changes@.contains_key(p) <==> (m1.key_seq().take(
                    i as int,
                ).contains(p) && shape_change(m1@, m2@, p) is Some),
                forall|p: PathView| #[trigger] changes@.contains_key(p) ==> Some(changes@[p])
                    == shape_change(m1@, m2@, p),
        {
            let (path, _) = m1.entry(i);
            let change = change_at(&m1, &m2, path);
            let ghost old_changes = changes@;
            match change {
                Some(d) => {
                    changes.insert(path.duplicate(), d);
                },
                None => {},
            }
            proof {
                lemma_take_contains(m1.key_seq(), i as int);
            }
        }
        let n2 = m2.len();
        proof {
            assert(m1.key_seq().take(n1 as int) =~= m1.key_seq());
            assert(m2.key_seq().take(0) =~= Seq::<PathView>::empty());
        }
        for i in 0..n2
            invariant
                n1 == m1.key_seq().len(),
                n2 == m2.key_seq().len(),
                forall|p: PathView| #[trigger] m1@.contains_key(p) <==> m1.key_seq().contains(p),
                forall|p: PathView| #[trigger] m2@.contains_key(p) <==> m2.key_seq().contains(p),
                target == shape_changes(inspection(facet1@), inspection(facet2@)),
                m1@ == last_visits(inspection(facet1@)),
                m2@ == last_visits(inspection(facet2@)),
                forall|p: PathView| #[trigger] changes@.contains_key(p) <==> ((m1@.contains_key(p)
                    || m2.key_seq().take(i as int).contains(p)) && shape_change(m1@, m2@, p) is Some),
                forall|p: PathView| #[trigger] changes@.contains_key(p) ==> Some(changes@[p])
                    == shape_change(m1@, m2@, p),
        {
            let (path, _) = m2.entry(i);
            let change = change_at(&m1, &m2, path);
            match change {
                Some(d) => {
                    changes.insert(path.duplicate(), d);
                },
                None => {},
            }
            proof {
                lemma_take_contains(m2.key_seq(), i as int);
            }
        }
        proof {
            assert(m2.key_seq().take(n2 as int) =~= m2.key_seq());
            assert(changes@ =~= target);
        }
        Some(ShapeDiff { changes })
    }

    /// Compares two values path by path (see `try_compare`), on values whose
    /// inspections meet no unsupported value.
    pub fn compare(facet1: &'a Node, facet2: &'a Node) -> (d: ShapeDiff<'a>)
        requires
            all_supported(inspection(facet1@)),
            all_supported(inspection(facet2@)),
        ensures
            d.changes@ == shape_changes(inspection(facet1@), inspection(facet2@)),
    {
        match ShapeDiff::try_compare(facet1, facet2) {
            Some(d) => d,
            None => {
                assert(false);
                ShapeDiff { changes: PathMap::new() }
            },
        }
    }
}

} // verus!

verus! {

/// Comparison of reflected values.
pub trait FacetDiff: Sized {
    /// The reflected value that is compared.
    spec fn compared(&self) -> NodeView;

    /// The changes from `self` to `other`, compared side by side
    /// (see `Diff::try_compare`).
    fn diff(&self, other: &Self) -> (d: Diff)
        requires
            !compare_panics(inspection(self.compared()), inspection(other.compared())),
        ensures
            d.changes@ == diff_changes(
                inspection(self.compared()),
                inspection(other.compared()),
                pair_count(inspection(self.compared()), inspection(other.compared())),
            ),
    ;

    /// The changes from `self` to `other`, path by path
    /// (see `ShapeDiff::try_compare`).
    fn shape_diff<'a>(&'a self, other: &'a Node) -> (d: ShapeDiff<'a>)
        requires
            all_supported(inspection(self.compared())),
            all_supported(inspection(other@)),
        ensures
            d.changes@ == shape_changes(inspection(self.compared()), inspection(other@)),
    ;
}

impl FacetDiff for Node {
    open spec fn compared(&self) -> NodeView {
        self@
    }

    fn diff(&self, other: &Node) -> (d: Diff) {
        Diff::compare(self, other)
    }

    fn shape_diff<'a>(&'a self, other: &'a Node) -> (d: ShapeDiff<'a>) {
        ShapeDiff::compare(self, other)
    }
}

} // verus!

verus! {

/// Every scalar that `w` visits can be compared for equality and is equal to
/// itself, as the scalars of Rust types that derive or implement `PartialEq`
/// are, floating-point NaN aside.
pub open spec fn scalars_comparable(w: Seq<Visit>) -> bool {
    forall|i: int|
        0 <= i < w.len() && (#[trigger] w[i]).1.is_scalar() ==> w[i].1.ty.comparable && self_equal(
            w[i].1,
        )
}

/// A value is never reported as changed against itself when its scalars can be
/// compared.
pub proof fn lemma_not_reported_self(a: NodeView)
    requires
        a.is_scalar() ==> a.ty.comparable && self_equal(a),
    ensures
        !reported(a, a),
{
}

/// Comparing a value with itself records no change, when its scalars can be
/// compared.
pub proof fn lemma_diff_self(w: Seq<Visit>, n: nat)
    requires
        scalars_comparable(w),
        n <= w.len(),
    ensures
        diff_changes(w, w, n) == Map::<PathView, ModificationView>::empty(),
    decreases n,
{
    if n > 0 {
        lemma_diff_self(w, (n - 1) as nat);
        assert(w[n - 1].1.is_scalar() ==> w[n - 1].1.ty.comparable && self_equal(w[n - 1].1));
        lemma_not_reported_self(w[n - 1].1);
    }
}

/// Every change that a comparison records lies at a path that the first
/// inspection visits, at a step whose pair of values is reported.
pub proof fn lemma_diff_paths(w1: Seq<Visit>, w2: Seq<Visit>, n: nat, p: PathView)
    requires
        n <= w1.len(),
        n <= w2.len(),
        diff_changes(w1, w2, n).contains_key(p),
    ensures
        exists|i: int| 0 <= i < n && (#[trigger] w1[i]).0 == p && reported(w1[i].1, w2[i].1),
    decreases n,
{
    let m = diff_changes(w1, w2, (n - 1) as nat);
    if w1[n - 1].0 == p && reported(w1[n - 1].1, w2[n - 1].1) {
    } else {
        assert(m.contains_key(p));
        lemma_diff_paths(w1, w2, (n - 1) as nat, p);
        let i = choose|i: int| 0 <= i < n - 1 && (#[trigger] w1[i]).0 == p && reported(w1[i].1, w2[i].1);
        assert(w1[i].0 == p);
    }
}

/// Each path that `last_visits` keeps holds a value that the inspection visits
/// there.
pub proof fn lemma_last_visits(w: Seq<Visit>, p: PathView)
    ensures
        last_visits(w).contains_key(p) <==> exists|i: int| 0 <= i < w.len() && (#[trigger] w[i]).0 == p,
        last_visits(w).contains_key(p) ==> exists|i: int| 0 <= i < w.len() && #[trigger] w[i] == (p, last_visits(w)[p]),
    decreases w.len(),
{
    if w.len() > 0 {
        let rest = w.drop_last();
        lemma_last_visits(rest, p);
        if exists|i: int| 0 <= i < w.len() && (#[trigger] w[i]).0 == p {
            let i = choose|i: int| 0 <= i < w.len() && (#[trigger] w[i]).0 == p;
            if i < w.len() - 1 {
                assert(rest[i] == w[i]);
            } else {
                assert(w.last() == w[i]);
            }
        }
        if last_visits(w).contains_key(p) {
            if w.last().0 == p {
                assert(w[w.len() - 1] == w.last());
            } else {
                let i = choose|i: int| 0 <= i < rest.len() && #[trigger] rest[i] == (p, last_visits(rest)[p]);
                assert(w[i] == rest[i]);
            }
        }
    }
}

/// Comparing a value with itself path by path finds no change, when its
/// scalars can be compared.
pub proof fn lemma_shape_diff_self(w: Seq<Visit>)
    requires
        scalars_comparable(w),
    ensures
        shape_changes(w, w) == Map::<PathView, DiffTypeView>::empty(),
{
    let m = last_visits(w);
    assert forall|p: PathView| !(#[trigger] shape_change(m, m, p) is Some) by {
        lemma_last_visits(w, p);
        if m.contains_key(p) {
            let i = choose|i: int| 0 <= i < w.len() && #[trigger] w[i] == (p, m[p]);
            assert(w[i].1.is_scalar() ==> w[i].1.ty.comparable && self_equal(w[i].1));
            lemma_not_reported_self(m[p]);
        }
    }
    assert(shape_changes(w, w) =~= Map::<PathView, DiffTypeView>::empty());
}

/// Swapping the two sides of a path-by-path comparison turns each path added
/// into a path removed, with the same value, and back.
pub proof fn lemma_shape_diff_swap(w1: Seq<Visit>, w2: Seq<Visit>, p: PathView, v: NodeView)
    ensures
        (shape_changes(w1, w2).contains_key(p) && shape_changes(w1, w2)[p] == DiffTypeView::Added(v))
            <==> (shape_changes(w2, w1).contains_key(p) && shape_changes(w2, w1)[p]
            == DiffTypeView::Removed(v)),
{
}

/// A path that only the first side visits is reported removed, with the value
/// last visited there; one that only the second side visits is reported added.
pub proof fn lemma_shape_diff_one_side(w1: Seq<Visit>, w2: Seq<Visit>, p: PathView)
    ensures
        last_visits(w1).contains_key(p) && !last_visits(w2).contains_key(p) ==> shape_changes(
            w1,
            w2,
        ).contains_key(p) && shape_changes(w1, w2)[p] == DiffTypeView::Removed(last_visits(w1)[p]),
        !last_visits(w1).contains_key(p) && last_visits(w2).contains_key(p) ==> shape_changes(
            w1,
            w2,
        ).contains_key(p) && shape_changes(w1, w2)[p] == DiffTypeView::Added(last_visits(w2)[p]),
        !last_visits(w1).contains_key(p) && !last_visits(w2).contains_key(p) ==> !shape_changes(
            w1,
            w2,
        ).contains_key(p),
{
}

} // verus!

verus! {

/// The modification read the other way: before and after exchanged.
pub open spec fn swap_modification(m: ModificationView) -> ModificationView {
    match m {
        ModificationView::U32 { before, after } => ModificationView::U32 { before: after, after: before },
        ModificationView::String { before, after } => ModificationView::String {
            before: after,
            after: before,
        },
    }
}

/// Every recorded modification read the other way.
pub open spec fn swapped_changes(m: Map<PathView, ModificationView>) -> Map<
    PathView,
    ModificationView,
> {
    Map::new(|p: PathView| m.contains_key(p), |p: PathView| swap_modification(m[p]))
}

/// The change read the other way: added and removed exchanged, and the two
/// values of a modification exchanged.
pub open spec fn swap_diff_type(d: DiffTypeView) -> DiffTypeView {
    match d {
        DiffTypeView::Added(v) => DiffTypeView::Removed(v),
        DiffTypeView::Removed(v) => DiffTypeView::Added(v),
        DiffTypeView::Modified { old_value, new_value } => DiffTypeView::Modified {
            old_value: new_value,
            new_value: old_value,
        },
    }
}

/// Every change read the other way.
pub open spec fn swapped_shape_changes(m: Map<PathView, DiffTypeView>) -> Map<PathView, DiffTypeView> {
    Map::new(|p: PathView| m.contains_key(p), |p: PathView| swap_diff_type(m[p]))
}

/// Two values of one type have one kind: both scalars or neither, as every
/// value of one Rust type has one shape.
pub open spec fn kinds_agree(a: NodeView, b: NodeView) -> bool {
    a.same_type(b) ==> a.is_scalar() == b.is_scalar()
}

/// Whether a pair is reported does not depend on its order, when the two
/// values' kinds agree.
pub proof fn lemma_reported_symmetric(a: NodeView, b: NodeView)
    requires
        kinds_agree(a, b),
    ensures
        reported(a, b) == reported(b, a),
{
}

/// A modification recorded the other way exchanges before and after.
pub proof fn lemma_modification_swap(a: NodeView, b: NodeView)
    requires
        modifiable(a, b),
    ensures
        modifiable(b, a),
        modification_of(b, a) == swap_modification(modification_of(a, b)),
{
}

proof fn lemma_diff_changes_swap(w1: Seq<Visit>, w2: Seq<Visit>, n: nat)
    requires
        n <= w1.len(),
        n <= w2.len(),
        forall|i: int| 0 <= i < n ==> (#[trigger] w1[i]).0 == w2[i].0,
        forall|i: int| 0 <= i < n ==> kinds_agree(#[trigger] w1[i].1, w2[i].1),
        forall|i: int| 0 <= i < n ==> reported(#[trigger] w1[i].1, w2[i].1) ==> modifiable(w1[i].1, w2[i].1),
    ensures
        diff_changes(w2, w1, n) == swapped_changes(diff_changes(w1, w2, n)),
    decreases n,
{
    if n == 0 {
        assert(swapped_changes(Map::<PathView, ModificationView>::empty()) =~= Map::<PathView, ModificationView>::empty());
    } else {
        let k = n - 1;
        lemma_diff_changes_swap(w1, w2, k as nat);
        let m = diff_changes(w1, w2, k as nat);
        let a = w1[k];
        let b = w2[k];
        assert(a.0 == b.0);
        lemma_reported_symmetric(a.1, b.1);
        if reported(a.1, b.1) {
            lemma_modification_swap(a.1, b.1);
            assert(swapped_changes(m.insert(a.0, modification_of(a.1, b.1))) =~= swapped_changes(m).insert(
                b.0,
                modification_of(b.1, a.1),
            ));
        }
    }
}

/// Comparing side by side the other way round records the same paths, each
/// with before and after exchanged, when both inspections visit the same
/// paths in the same order, values of one type have one kind, and the
/// comparison does not fail.
pub proof fn lemma_diff_swap(w1: Seq<Visit>, w2: Seq<Visit>)
    requires
        w1.len() == w2.len(),
        forall|i: int| 0 <= i < w1.len() ==> (#[trigger] w1[i]).0 == w2[i].0,
        forall|i: int| 0 <= i < w1.len() ==> kinds_agree(#[trigger] w1[i].1, w2[i].1),
        !compare_panics(w1, w2),
    ensures
        !compare_panics(w2, w1),
        diff_changes(w2, w1, pair_count(w2, w1)) == swapped_changes(
            diff_changes(w1, w2, pair_count(w1, w2)),
        ),
{
    assert forall|i: int| 0 <= i < w1.len() implies reported(#[trigger] w1[i].1, w2[i].1) ==> modifiable(
        w1[i].1,
        w2[i].1,
    ) by {
        assert(!panics_at(w1, w2, i));
    }
    assert forall|i: int| !panics_at(w2, w1, i) by {
        if 0 <= i < w1.len() {
            assert(!panics_at(w1, w2, i));
            lemma_reported_symmetric(w1[i].1, w2[i].1);
            if reported(w1[i].1, w2[i].1) {
                lemma_modification_swap(w1[i].1, w2[i].1);
            }
        }
    }
    lemma_diff_changes_swap(w1, w2, w1.len());
}

/// Comparing path by path the other way round finds the same paths, with
/// added and removed exchanged and the two values of each modification
/// exchanged, when values at one path that share a type name share a kind.
pub proof fn lemma_shape_diff_swap_all(w1: Seq<Visit>, w2: Seq<Visit>)
    requires
        forall|p: PathView|
            #[trigger] last_visits(w1).contains_key(p) && last_visits(w2).contains_key(p) ==> kinds_agree(
                last_visits(w1)[p],
                last_visits(w2)[p],
            ),
    ensures
        shape_changes(w2, w1) == swapped_shape_changes(shape_changes(w1, w2)),
{
    let m1 = last_visits(w1);
    let m2 = last_visits(w2);
    assert forall|p: PathView| #[trigger] shape_change(m2, m1, p) == match shape_change(m1, m2, p) {
        Some(d) => Some(swap_diff_type(d)),
        None => None,
    } by {
        if m1.contains_key(p) && m2.contains_key(p) {
            lemma_reported_symmetric(m1[p], m2[p]);
        }
    }
    assert(shape_changes(w2, w1) =~= swapped_shape_changes(shape_changes(w1, w2)));
}

} // verus!

verus! {

/// A change between two `u32` values is recorded with the old value before and
/// the new value after; likewise between two `String` values.
pub proof fn lemma_modification_before_after(a: NodeView, b: NodeView)
    ensures
        forall|x: u32, y: u32|
            a.value == ValueView::Scalar(ScalarView::U32(x)) && b.value == ValueView::Scalar(
                ScalarView::U32(y),
            ) ==> modifiable(a, b) && modification_of(a, b) == (ModificationView::U32 {
                before: x,
                after: y,
            }),
        forall|x: Seq<char>, y: Seq<char>|
            a.value == ValueView::Scalar(ScalarView::Str(x)) && b.value == ValueView::Scalar(
                ScalarView::Str(y),
            ) ==> modifiable(a, b) && modification_of(a, b) == (ModificationView::String {
                before: x,
                after: y,
            }),
{
}

/// Two different scalars are always reported; two values that reflection
/// finds equal, or two non-scalar values of one type, never are.
pub proof fn lemma_reported_cases(a: NodeView, b: NodeView)
    ensures
        a.is_scalar() && a != b ==> reported(a, b),
        a.reflect_eq(b) ==> !reported(a, b),
        a.same_type(b) && !a.is_scalar() ==> !reported(a, b),
        !a.same_type(b) && !a.reflect_eq(b) ==> reported(a, b),
{
}

proof fn lemma_diff_changes_keeps(w1: Seq<Visit>, w2: Seq<Visit>, i: int, n: nat)
    requires
        0 <= i < n,
        n <= w1.len(),
        n <= w2.len(),
        reported(w1[i].1, w2[i].1),
        forall|j: int| i < j < n ==> (#[trigger] w1[j]).0 != w1[i].0,
    ensures
        diff_changes(w1, w2, n).contains_key(w1[i].0),
        diff_changes(w1, w2, n)[w1[i].0] == modification_of(w1[i].1, w2[i].1),
    decreases n,
{
    if n - 1 > i {
        lemma_diff_changes_keeps(w1, w2, i, (n - 1) as nat);
        assert(w1[n - 1].0 != w1[i].0);
    }
}

/// At a step before either inspection ends where the two values are two
/// different `u32` (or two different `String`), the comparison records the
/// first value's path with the first value before and the second after,
/// unless a later step visits the same path again.
pub proof fn lemma_diff_records_scalar_change(w1: Seq<Visit>, w2: Seq<Visit>, i: int)
    requires
        0 <= i < pair_count(w1, w2),
        forall|j: int| i < j < pair_count(w1, w2) ==> (#[trigger] w1[j]).0 != w1[i].0,
    ensures
        forall|x: u32, y: u32|
            w1[i].1.value == ValueView::Scalar(ScalarView::U32(x)) && w2[i].1.value
                == ValueView::Scalar(ScalarView::U32(y)) && x != y ==> diff_changes(
                w1,
                w2,
                pair_count(w1, w2),
            ).contains_key(w1[i].0) && diff_changes(w1, w2, pair_count(w1, w2))[w1[i].0] == (
            ModificationView::U32 { before: x, after: y }),
        forall|x: Seq<char>, y: Seq<char>|
            w1[i].1.value == ValueView::Scalar(ScalarView::Str(x)) && w2[i].1.value
                == ValueView::Scalar(ScalarView::Str(y)) && x != y ==> diff_changes(
                w1,
                w2,
                pair_count(w1, w2),
            ).contains_key(w1[i].0) && diff_changes(w1, w2, pair_count(w1, w2))[w1[i].0] == (
            ModificationView::String { before: x, after: y }),
{
    let a = w1[i].1;
    let b = w2[i].1;
    if a.is_scalar() && a != b {
        lemma_reported_cases(a, b);
        lemma_diff_changes_keeps(w1, w2, i, pair_count(w1, w2));
        lemma_modification_before_after(a, b);
    }
}

/// At a step where the two values are equal as reflection sees them, or are
/// two non-scalar values of one type, the comparison records nothing, and
/// with no other step at that path the path is absent from the changes.
pub proof fn lemma_diff_skips(w1: Seq<Visit>, w2: Seq<Visit>, i: int)
    requires
        0 <= i < pair_count(w1, w2),
        w1[i].1.reflect_eq(w2[i].1) || (w1[i].1.same_type(w2[i].1) && !w1[i].1.is_scalar()),
        forall|j: int| 0 <= j < pair_count(w1, w2) && j != i ==> (#[trigger] w1[j]).0 != w1[i].0,
    ensures
        !diff_changes(w1, w2, pair_count(w1, w2)).contains_key(w1[i].0),
{
    let p = w1[i].0;
    if diff_changes(w1, w2, pair_count(w1, w2)).contains_key(p) {
        lemma_diff_paths(w1, w2, pair_count(w1, w2), p);
        let k = choose|k: int| 0 <= k < pair_count(w1, w2) && (#[trigger] w1[k]).0 == p && reported(w1[k].1, w2[k].1);
        lemma_reported_cases(w1[i].1, w2[i].1);
    }
}

/// A path that both sides visit, whose last values there differ in type, is
/// reported modified from the first side's value to the second's.
pub proof fn lemma_shape_diff_type_change(w1: Seq<Visit>, w2: Seq<Visit>, p: PathView)
    requires
        last_visits(w1).contains_key(p),
        last_visits(w2).contains_key(p),
        !last_visits(w1)[p].same_type(last_visits(w2)[p]),
    ensures
        shape_changes(w1, w2).contains_key(p),
        shape_changes(w1, w2)[p] == (DiffTypeView::Modified {
            old_value: last_visits(w1)[p],
            new_value: last_visits(w2)[p],
        }),
{
    lemma_reported_cases(last_visits(w1)[p], last_visits(w2)[p]);
}

/// A path that both sides visit where one value is a scalar and the other is
/// not is reported modified from the first side's value to the second's, when
/// values of one type name have one kind.
pub proof fn lemma_shape_diff_kind_change(w1: Seq<Visit>, w2: Seq<Visit>, p: PathView)
    requires
        last_visits(w1).contains_key(p),
        last_visits(w2).contains_key(p),
        last_visits(w1)[p].is_scalar() != last_visits(w2)[p].is_scalar(),
        kinds_agree(last_visits(w1)[p], last_visits(w2)[p]),
    ensures
        shape_changes(w1, w2).contains_key(p),
        shape_changes(w1, w2)[p] == (DiffTypeView::Modified {
            old_value: last_visits(w1)[p],
            new_value: last_visits(w2)[p],
        }),
{
    lemma_shape_diff_type_change(w1, w2, p);
}

/// A path that both sides visit whose last values are two different scalars
/// is reported modified from the first side's value to the second's.
pub proof fn lemma_shape_diff_scalar_change(w1: Seq<Visit>, w2: Seq<Visit>, p: PathView)
    requires
        last_visits(w1).contains_key(p),
        last_visits(w2).contains_key(p),
        last_visits(w1)[p].is_scalar(),
        last_visits(w1)[p] != last_visits(w2)[p],
    ensures
        shape_changes(w1, w2).contains_key(p),
        shape_changes(w1, w2)[p] == (DiffTypeView::Modified {
            old_value: last_visits(w1)[p],
            new_value: last_visits(w2)[p],
        }),
{
    lemma_reported_cases(last_visits(w1)[p], last_visits(w2)[p]);
}

/// A path that both sides visit whose last values are equal as reflection sees
/// them, or are two non-scalar values of one type, is not reported.
pub proof fn lemma_shape_diff_skips(w1: Seq<Visit>, w2: Seq<Visit>, p: PathView)
    requires
        last_visits(w1).contains_key(p),
        last_visits(w2).contains_key(p),
        last_visits(w1)[p].reflect_eq(last_visits(w2)[p]) || (last_visits(w1)[p].same_type(
            last_visits(w2)[p],
        ) && !last_visits(w1)[p].is_scalar()),
    ensures
        !shape_changes(w1, w2).contains_key(p),
{
}

} // verus!

verus! {

/// The value kept at a path is the one visited there last.
pub proof fn lemma_last_visits_latest(w: Seq<Visit>, i: int)
    requires
        0 <= i < w.len(),
        forall|j: int| i < j < w.len() ==> (#[trigger] w[j]).0 != w[i].0,
    ensures
        last_visits(w).contains_key(w[i].0),
        last_visits(w)[w[i].0] == w[i].1,
    decreases w.len(),
{
    if i < w.len() - 1 {
        assert(w.drop_last()[i] == w[i]);
        assert forall|j: int| i < j < w.drop_last().len() implies (#[trigger] w.drop_last()[j]).0 != w.drop_last()[i].0 by {
            assert(w.drop_last()[j] == w[j]);
        }
        lemma_last_visits_latest(w.drop_last(), i);
        assert(w[w.len() - 1].0 != w[i].0);
    } else {
        assert(w.last() == w[i]);
    }
}

} // verus!
