use vstd::prelude::*;

use crate::node::{
    entries_size, list_size, node_size, value_size, Node, NodeView, Value, ValueView,
};
use crate::path::{decimal, split_dot, FacetPath, PathView};

verus! {

/// One step of an inspection: a path and the value found there.
pub type Visit = (PathView, NodeView);

/// The path of the root object, `$`.
pub open spec fn root_path() -> PathView {
    seq![seq!['$']]
}

/// The sub-objects of `n`, found at `path`, in the order in which the
/// inspection puts them on its stack: the items of a list and the entries of a
/// map in their order (so that they come out last first), the fields of a
/// struct or enum last first (so that they come out in declaration order).
pub open spec fn children(path: PathView, n: NodeView) -> Seq<Visit> {
    match n.value {
        ValueView::List(items) => Seq::new(
            items.len(),
            |i: int| (path + split_dot(decimal(i as nat)), items[i]),
        ),
        ValueView::Entries(entries) => Seq::new(
            entries.len(),
            |i: int| (path + split_dot(entries[i].0), entries[i].1),
        ),
        ValueView::Fields(fields) => Seq::new(
            fields.len(),
            |i: int|
                (path + split_dot(fields[fields.len() - 1 - i].0), fields[fields.len() - 1 - i].1),
        ),
        _ => Seq::empty(),
    }
}

/// The number of values held by a stack of visits, sub-objects included.
pub open spec fn stack_size(s: Seq<Visit>) -> nat
    decreases s.len(),
{
    if s.len() == 0 {
        0
    } else {
        stack_size(s.drop_last()) + node_size(s.last().1)
    }
}

/// Everything that an inspection whose stack is `s` yields, in order: it takes
/// the top of the stack, yields it, and puts its sub-objects on the stack.
#[verifier::opaque]
pub open spec fn walk(s: Seq<Visit>) -> Seq<Visit>
    decreases stack_size(s),
{
    if s.len() == 0 {
        Seq::empty()
    } else {
        let top = s.last();
        proof {
            lemma_step_smaller(s);
        }
        seq![top] + walk(s.drop_last() + children(top.0, top.1))
    }
}

/// One step of a walk: the top of the stack, then the walk of what the step
/// leaves on the stack.
pub proof fn lemma_walk_unfold(s: Seq<Visit>)
    ensures
        s.len() == 0 ==> walk(s) == Seq::<Visit>::empty(),
        s.len() > 0 ==> walk(s) == seq![s.last()] + walk(
            s.drop_last() + children(s.last().0, s.last().1),
        ),
        s.len() > 0 ==> walk(s)[0] == s.last() && walk(
            s.drop_last() + children(s.last().0, s.last().1),
        ) == walk(s).drop_first(),
{
    reveal(walk);
    if s.len() > 0 {
        let w = walk(s);
        assert(w.drop_first() =~= walk(s.drop_last() + children(s.last().0, s.last().1)));
    }
}

/// Everything that inspecting `n` yields, starting at the root path `$`.
pub open spec fn inspection(n: NodeView) -> Seq<Visit> {
    walk(seq![(root_path(), n)])
}

pub proof fn lemma_stack_size_concat(a: Seq<Visit>, b: Seq<Visit>)
    ensures
        stack_size(a + b) == stack_size(a) + stack_size(b),
    decreases b.len(),
{
    if b.len() == 0 {
        assert(a + b =~= a);
    } else {
        lemma_stack_size_concat(a, b.drop_last());
        assert((a + b).drop_last() =~= a + b.drop_last());
        assert((a + b).last() == b.last());
    }
}

proof fn lemma_list_children_size(c: Seq<Visit>, items: Seq<NodeView>)
    requires
        c.len() == items.len(),
        forall|i: int| 0 <= i < c.len() ==> #[trigger] c[i].1 == items[i],
    ensures
        stack_size(c) == list_size(items),
    decreases c.len(),
{
    if c.len() > 0 {
        lemma_list_children_size(c.drop_last(), items.drop_last());
    }
}

proof fn lemma_entries_children_size(c: Seq<Visit>, entries: Seq<(Seq<char>, NodeView)>)
    requires
        c.len() == entries.len(),
        forall|i: int| 0 <= i < c.len() ==> #[trigger] c[i].1 == entries[i].1,
    ensures
        stack_size(c) == entries_size(entries),
    decreases c.len(),
{
    if c.len() > 0 {
        lemma_entries_children_size(c.drop_last(), entries.drop_last());
    }
}

proof fn lemma_entries_size_first(entries: Seq<(Seq<char>, NodeView)>)
    requires
        entries.len() > 0,
    ensures
        entries_size(entries) == node_size(entries[0].1) + entries_size(entries.drop_first()),
    decreases entries.len(),
{
    let dl = entries.drop_last();
    let df = entries.drop_first();
    if entries.len() > 1 {
        lemma_entries_size_first(dl);
        assert(dl.drop_first() =~= df.drop_last());
        assert(df.last() == entries.last());
        assert(dl[0] == entries[0]);
        assert(entries_size(entries) == entries_size(dl) + node_size(entries.last().1));
        assert(entries_size(df) == entries_size(df.drop_last()) + node_size(df.last().1));
    } else {
        assert(df.len() == 0);
        assert(dl.len() == 0);
        assert(entries_size(df) == 0);
        assert(entries_size(dl) == 0);
        assert(entries.last() == entries[0]);
    }
}

proof fn lemma_reversed_children_size(c: Seq<Visit>, fields: Seq<(Seq<char>, NodeView)>)
    requires
        c.len() == fields.len(),
        forall|i: int| 0 <= i < c.len() ==> #[trigger] c[i].1 == fields[fields.len() - 1 - i].1,
    ensures
        stack_size(c) == entries_size(fields),
    decreases c.len(),
{
    if c.len() > 0 {
        let rest = fields.drop_first();
        assert forall|i: int| 0 <= i < c.drop_last().len() implies #[trigger] c.drop_last()[i].1
            == rest[rest.len() - 1 - i].1 by {
            assert(c.drop_last()[i] == c[i]);
        }
        lemma_reversed_children_size(c.drop_last(), rest);
        lemma_entries_size_first(fields);
        assert(c.last() == c[c.len() - 1]);
    }
}

/// The sub-objects of a value hold all its values but itself.
pub proof fn lemma_children_size(path: PathView, n: NodeView)
    ensures
        stack_size(children(path, n)) + 1 == node_size(n),
{
    let c = children(path, n);
    match n.value {
        ValueView::List(items) => {
            lemma_list_children_size(c, items);
        },
        ValueView::Entries(entries) => {
            lemma_entries_children_size(c, entries);
        },
        ValueView::Fields(fields) => {
            lemma_reversed_children_size(c, fields);
        },
        _ => {
            assert(value_size(n.value) == 0);
        },
    }
}

/// Each step of an inspection leaves fewer values on its stack.
pub proof fn lemma_step_smaller(s: Seq<Visit>)
    requires
        s.len() > 0,
    ensures
        stack_size(s.drop_last() + children(s.last().0, s.last().1)) < stack_size(s),
{
    lemma_stack_size_concat(s.drop_last(), children(s.last().0, s.last().1));
    lemma_children_size(s.last().0, s.last().1);
}

/// The first value that `w` visits at path `p`, if any.
pub open spec fn first_match(w: Seq<Visit>, p: PathView) -> Option<NodeView>
    decreases w.len(),
{
    if w.len() == 0 {
        None
    } else if w[0].0 == p {
        Some(w[0].1)
    } else {
        first_match(w.drop_first(), p)
    }
}

/// Every value that a search for `p` in `w` visits, up to and including the
/// first one at `p`, is supported.
pub open spec fn supported_until(w: Seq<Visit>, p: PathView) -> bool {
    forall|i: int|
        0 <= i < w.len() && (forall|j: int| 0 <= j < i ==> w[j].0 != p) ==> (#[trigger] w[i]).1.is_supported()
}

/// An inspection yields everything on the top part of its stack before
/// anything below it.
pub proof fn lemma_walk_concat(a: Seq<Visit>, b: Seq<Visit>)
    ensures
        walk(a + b) == walk(b) + walk(a),
    decreases stack_size(b),
{
    reveal(walk);
    if b.len() == 0 {
        assert(a + b =~= a);
        assert(walk(b) =~= Seq::<Visit>::empty());
        assert(walk(b) + walk(a) =~= walk(a));
    } else {
        let top = b.last();
        let rest = b.drop_last() + children(top.0, top.1);
        lemma_step_smaller(b);
        lemma_walk_concat(a, rest);
        assert((a + b).last() == top);
        assert((a + b).drop_last() + children(top.0, top.1) =~= a + rest);
        assert(walk(a + b) == seq![top] + walk(a + rest));
        assert(walk(b) == seq![top] + walk(rest));
        assert(walk(a + b) =~= walk(b) + walk(a));
    }
}

/// An inspection visits every value on its stack exactly once: it yields as
/// many visits as its stack holds values.
pub proof fn lemma_walk_len(s: Seq<Visit>)
    ensures
        walk(s).len() == stack_size(s),
    decreases stack_size(s),
{
    reveal(walk);
    if s.len() > 0 {
        let rest = s.drop_last() + children(s.last().0, s.last().1);
        lemma_step_smaller(s);
        lemma_walk_len(rest);
        lemma_stack_size_concat(s.drop_last(), children(s.last().0, s.last().1));
        lemma_children_size(s.last().0, s.last().1);
    }
}

/// Inspecting a value yields the value itself first, at the root path `$`,
/// then everything below it; as many visits as the value holds values.
pub proof fn lemma_inspection_shape(n: NodeView)
    ensures
        inspection(n).len() == node_size(n),
        inspection(n)[0] == (root_path(), n),
        inspection(n) == seq![(root_path(), n)] + walk(children(root_path(), n)),
{
    reveal(walk);
    let s = seq![(root_path(), n)];
    lemma_walk_len(s);
    assert(s.drop_last() + children(root_path(), n) =~= children(root_path(), n));
    assert(stack_size(s) == node_size(n)) by {
        assert(s.drop_last().len() == 0);
        assert(stack_size(s.drop_last()) == 0);
        assert(s.last().1 == n);
    }
}

/// Each visit found below a path keeps that path as its prefix.
pub proof fn lemma_walk_prefix(s: Seq<Visit>, prefix: PathView)
    requires
        forall|i: int| 0 <= i < s.len() ==> (#[trigger] s[i]).0.take(prefix.len() as int) == prefix
            && s[i].0.len() >= prefix.len(),
    ensures
        forall|i: int| 0 <= i < walk(s).len() ==> (#[trigger] walk(s)[i]).0.take(prefix.len() as int)
            == prefix && walk(s)[i].0.len() >= prefix.len(),
    decreases stack_size(s),
{
    reveal(walk);
    if s.len() > 0 {
        let top = s.last();
        let c = children(top.0, top.1);
        let rest = s.drop_last() + c;
        assert(top == s[s.len() - 1]);
        assert forall|i: int| 0 <= i < rest.len() implies (#[trigger] rest[i]).0.take(
            prefix.len() as int,
        ) == prefix && rest[i].0.len() >= prefix.len() by {
            if i < s.len() - 1 {
                assert(rest[i] == s[i]);
            } else {
                let k = i - (s.len() - 1);
                assert(rest[i] == c[k]);
                assert(c[k].0.take(top.0.len() as int) =~= top.0) by {
                    match top.1.value {
                        ValueView::List(items) => {},
                        ValueView::Entries(entries) => {},
                        ValueView::Fields(fields) => {},
                        _ => {},
                    }
                }
                assert(c[k].0.take(prefix.len() as int) =~= top.0.take(prefix.len() as int));
            }
        }
        lemma_step_smaller(s);
        lemma_walk_prefix(rest, prefix);
        assert forall|i: int| 0 <= i < walk(s).len() implies (#[trigger] walk(s)[i]).0.take(
            prefix.len() as int,
        ) == prefix && walk(s)[i].0.len() >= prefix.len() by {
            if i > 0 {
                assert(walk(s)[i] == walk(rest)[i - 1]);
            }
        }
    }
}

/// Every path that inspecting a value yields starts at the root `$`.
pub proof fn lemma_inspection_rooted(n: NodeView)
    ensures
        forall|i: int| 0 <= i < inspection(n).len() ==> (#[trigger] inspection(n)[i]).0.len() >= 1
            && inspection(n)[i].0[0] == seq!['$'],
{
    let s = seq![(root_path(), n)];
    assert(s[0].0.take(1) =~= root_path());
    lemma_walk_prefix(s, root_path());
    assert forall|i: int| 0 <= i < inspection(n).len() implies (#[trigger] inspection(n)[i]).0.len()
        >= 1 && inspection(n)[i].0[0] == seq!['$'] by {
        assert(inspection(n)[i].0.take(1)[0] == inspection(n)[i].0[0]);
    }
}

/// An inspection of a reflected value: the paths and sub-objects still to visit.
#[derive(Clone)]
pub struct FacetIterator<'a> {
    stack: Vec<(FacetPath, &'a Node)>,
}

impl<'a> View for FacetIterator<'a> {
    type V = Seq<Visit>;

    closed spec fn view(&self) -> Seq<Visit> {
        self.stack@.map_values(|e: (FacetPath, &'a Node)| (e.0@, e.1@))
    }
}

impl<'a> FacetIterator<'a> {
    /// An inspection of `node` that starts at the root path `$`.
    pub fn new(node: &'a Node) -> (it: FacetIterator<'a>)
        ensures
            it@ == seq![(root_path(), node@)],
    {
        let mut stack: Vec<(FacetPath, &'a Node)> = Vec::new();
        stack.push((FacetPath::root(), node));
        let it = FacetIterator { stack };
        assert(it@ =~= seq![(root_path(), node@)]);
        it
    }

    /// Whether the next step of the inspection would meet a value that it does
    /// not support.
    pub fn next_is_unsupported(&self) -> (r: bool)
        ensures
            r == (self@.len() > 0 && !self@.last().1.is_supported()),
    {
        let n = self.stack.len();
        if n == 0 {
            false
        } else {
            let top: &Node = self.stack[n - 1].1;
            assert(self@.last() == (self.stack@[n - 1].0@, self.stack@[n - 1].1@));
            !top.is_supported()
        }
    }

    /// Whether the inspection has nothing left to visit.
    pub fn is_done(&self) -> (r: bool)
        ensures
            r == (self@.len() == 0),
    {
        self.stack.len() == 0
    }

    /// Takes the top of the stack, puts its sub-objects on the stack and yields
    /// it with its path.
    pub fn next(&mut self) -> (r: Option<(FacetPath, &'a Node)>)
        requires
            old(self)@.len() > 0 ==> old(self)@.last().1.is_supported(),
        ensures
            old(self)@.len() == 0 ==> r is None && final(self)@ == old(self)@,
            old(self)@.len() > 0 ==> (r matches Some((p, n)) && (p@, n@) == old(self)@.last()
                && final(self)@ == old(self)@.drop_last() + children(p@, n@)),
    {
        let ghost before = self.stack@;
        match self.stack.pop() {
            None => {
                assert(self@ =~= old(self)@);
                None
            },
            Some((path, peek)) => {
                assert(self@ =~= old(self)@.drop_last());
                assert(old(self)@.last() == (path@, peek@));
                match &peek.value {
                    Value::Scalar(_) => {
                        assert(children(path@, peek@) =~= Seq::<Visit>::empty());
                    },
                    Value::List(items) => {
                        self.push_list_items_to_stack(&path, items);
                    },
                    Value::Entries(entries) => {
                        self.push_map_items_to_stack(&path, entries);
                    },
                    Value::Fields(fields) => {
                        self.push_fields_to_stack(&path, fields);
                    },
                    Value::Opaque => {
                        assert(children(path@, peek@) =~= Seq::<Visit>::empty());
                    },
                    Value::Unsupported => {
                        assert(false);
                    },
                }
                assert(self@ =~= old(self)@.drop_last() + children(path@, peek@));
                Some((path, peek))
            },
        }
    }

    /// Puts the fields on the stack, last field first, each under the path of
    /// `parent_path` followed by the field's name.
    fn push_fields_to_stack(&mut self, parent_path: &FacetPath, fields: &'a Vec<(String, Node)>)
        ensures
            final(self)@ == old(self)@ + Seq::new(
                fields@.len(),
                |i: int|
                    (
                        parent_path@ + split_dot(fields@[fields@.len() - 1 - i].0@),
                        fields@[fields@.len() - 1 - i].1@,
                    ),
            ),
    {
        let n = fields.len();
        let ghost start = self@;
        let ghost pushed = Seq::new(
            fields@.len(),
            |i: int|
                (
                    parent_path@ + split_dot(fields@[fields@.len() - 1 - i].0@),
                    fields@[fields@.len() - 1 - i].1@,
                ),
        );
        let mut k: usize = n;
        while k > 0
            invariant
                n == fields.len(),
                k <= n,
                pushed.len() == n,
                pushed == Seq::new(
                    fields@.len(),
                    |i: int|
                        (
                            parent_path@ + split_dot(fields@[fields@.len() - 1 - i].0@),
                            fields@[fields@.len() - 1 - i].1@,
                        ),
                ),
                self@ == start + pushed.take((n - k) as int),
            decreases k,
        {
            k = k - 1;
            let field: &'a (String, Node) = &fields[k];
            let new_path = parent_path.label_child(field.0.as_str());
            let ghost prev = self.stack@;
            let ghost prev_view = self@;
            self.stack.push((new_path, &field.1));
            assert(self.stack@ == prev.push((new_path, &field.1)));
            assert(self@ =~= prev_view.push((self.stack@.last().0@, self.stack@.last().1@)));
            assert(pushed[(n - 1 - k) as int] == (new_path@, field.1@));
            assert(pushed.take((n - k) as int) =~= pushed.take((n - 1 - k) as int).push(
                pushed[(n - 1 - k) as int],
            ));
            assert(self@ =~= start + pushed.take((n - k) as int));
        }
        assert(pushed.take(n as int) =~= pushed);
    }

    /// Puts the items on the stack, first item first, each under the path of
    /// `parent_path` followed by its index.
    fn push_list_items_to_stack(&mut self, parent_path: &FacetPath, items: &'a Vec<Node>)
        ensures
            final(self)@ == old(self)@ + Seq::new(
                items@.len(),
                |i: int| (parent_path@ + split_dot(decimal(i as nat)), items@[i]@),
            ),
    {
        let n = items.len();
        let ghost start = self@;
        let ghost pushed = Seq::new(
            items@.len(),
            |i: int| (parent_path@ + split_dot(decimal(i as nat)), items@[i]@),
        );
        for index in 0..n
            invariant
                n == items.len(),
                pushed == Seq::new(
                    items@.len(),
                    |i: int| (parent_path@ + split_dot(decimal(i as nat)), items@[i]@),
                ),
                self@ == start + pushed.take(index as int),
        {
            let item: &'a Node = &items[index];
            let new_path = parent_path.index_child(index);
            let ghost prev = self.stack@;
            let ghost prev_view = self@;
            self.stack.push((new_path, item));
            assert(self.stack@ == prev.push((new_path, item)));
            assert(self@ =~= prev_view.push((self.stack@.last().0@, self.stack@.last().1@)));
            assert(pushed[index as int] == (new_path@, item@));
            assert(pushed.take(index + 1) =~= pushed.take(index as int).push(pushed[index as int]));
            assert(self@ =~= start + pushed.take(index + 1));
        }
        assert(pushed.take(n as int) =~= pushed);
    }

    /// Puts the entries on the stack, first entry first, each under the path of
    /// `parent_path` followed by the text of its key.
    fn push_map_items_to_stack(&mut self, parent_path: &FacetPath, entries: &'a Vec<(String, Node)>)
        ensures
            final(self)@ == old(self)@ + Seq::new(
                entries@.len(),
                |i: int| (parent_path@ + split_dot(entries@[i].0@), entries@[i].1@),
            ),
    {
        let n = entries.len();
        let ghost start = self@;
        let ghost pushed = Seq::new(
            entries@.len(),
            |i: int| (parent_path@ + split_dot(entries@[i].0@), entries@[i].1@),
        );
        for index in 0..n
            invariant
                n == entries.len(),
                pushed == Seq::new(
                    entries@.len(),
                    |i: int| (parent_path@ + split_dot(entries@[i].0@), entries@[i].1@),
                ),
                self@ == start + pushed.take(index as int),
        {
            let entry: &'a (String, Node) = &entries[index];
            let new_path = parent_path.label_child(entry.0.as_str());
            let ghost prev = self.stack@;
            let ghost prev_view = self@;
            self.stack.push((new_path, &entry.1));
            assert(self.stack@ == prev.push((new_path, &entry.1)));
            assert(self@ =~= prev_view.push((self.stack@.last().0@, self.stack@.last().1@)));
            assert(pushed[index as int] == (new_path@, entry.1@));
            assert(pushed.take(index + 1) =~= pushed.take(index as int).push(pushed[index as int]));
            assert(self@ =~= start + pushed.take(index + 1));
        }
        assert(pushed.take(n as int) =~= pushed);
    }
}

} // verus!

verus! {

proof fn lemma_first_match_skip(w: Seq<Visit>, p: PathView, k: int)
    requires
        0 <= k <= w.len(),
        forall|j: int| 0 <= j < k ==> (#[trigger] w[j]).0 != p,
    ensures
        first_match(w, p) == first_match(w.skip(k), p),
    decreases k,
{
    if k > 0 {
        assert(w[0].0 != p);
        lemma_first_match_skip(w.drop_first(), p, k - 1);
        assert(w.drop_first().skip(k - 1) =~= w.skip(k));
        assert forall|j: int| 0 <= j < k - 1 implies (#[trigger] w.drop_first()[j]).0 != p by {
            assert(w.drop_first()[j] == w[j + 1]);
        }
    } else {
        assert(w.skip(0) =~= w);
    }
}

/// Inspection of a reflected value: a walk over its sub-objects with their
/// paths, and the lookup of a sub-object by its path.
pub trait FacetInspect {
    /// The reflected value that is inspected.
    spec fn reflected(&self) -> NodeView;

    /// An inspection of this value: an iterator over its sub-objects, each
    /// with the path that leads to it, starting with the value itself at `$`.
    fn inspect(&self) -> (it: FacetIterator<'_>)
        ensures
            it@ == seq![(root_path(), self.reflected())],
            walk(it@) == inspection(self.reflected()),
    ;

    /// The first sub-object that the inspection of this value visits at
    /// `path`, or `None` when it visits none there; `Err` exactly when the
    /// search meets an unsupported value first.
    fn try_get(&self, path: &FacetPath) -> (r: Result<Option<&Node>, ()>)
        ensures
            r is Err <==> !supported_until(inspection(self.reflected()), path@),
            r matches Ok(Some(n)) ==> first_match(inspection(self.reflected()), path@) == Some(n@),
            r matches Ok(None) ==> first_match(inspection(self.reflected()), path@) is None,
    ;

    /// The first sub-object that the inspection of this value visits at
    /// `path`, or `None` when it visits none there.
    fn get(&self, path: &FacetPath) -> (r: Option<&Node>)
        requires
            supported_until(inspection(self.reflected()), path@),
        ensures
            match r {
                Some(n) => first_match(inspection(self.reflected()), path@) == Some(n@),
                None => first_match(inspection(self.reflected()), path@) is None,
            },
    ;
}

impl FacetInspect for Node {
    open spec fn reflected(&self) -> NodeView {
        self@
    }

    fn inspect(&self) -> (it: FacetIterator<'_>) {
        FacetIterator::new(self)
    }

    fn try_get(&self, path: &FacetPath) -> (r: Result<Option<&Node>, ()>) {
        let mut it = self.inspect();
        let ghost w = inspection(self@);
        let ghost mut k: int = 0;
        assert(w.skip(0) =~= w);
        loop
            invariant
                0 <= k <= w.len(),
                walk(it@) == w.skip(k),
                forall|j: int| 0 <= j < k ==> (#[trigger] w[j]).0 != path@,
                forall|j: int| 0 <= j < k ==> (#[trigger] w[j]).1.is_supported(),
                w == inspection(self@),
            decreases stack_size(it@),
        {
            let ghost before = it@;
            proof {
                lemma_first_match_skip(w, path@, k);
                lemma_walk_unfold(before);
                if before.len() > 0 {
                    lemma_step_smaller(before);
                    assert(w[k] == w.skip(k)[0]);
                }
            }
            if it.is_done() {
                assert(w.skip(k).len() == 0);
                assert(first_match(w.skip(k), path@) is None);
                return Ok(None);
            }
            if it.next_is_unsupported() {
                assert(!w[k].1.is_supported());
                return Err(());
            }
            match it.next() {
                Some((p, n)) => {
                    proof {
                        assert(walk(it@) == walk(before).drop_first());
                        assert(w.skip(k).drop_first() =~= w.skip(k + 1));
                        assert(walk(it@) =~= w.skip(k + 1));
                    }
                    if p.same_as(path) {
                        assert(first_match(w.skip(k), path@) == Some(n@));
                        assert forall|i: int|
                            0 <= i < w.len() && (forall|j: int| 0 <= j < i ==> w[j].0 != path@) implies (#[trigger] w[i]).1.is_supported() by {
                            if i > k {
                                assert(w[k].0 == path@);
                            }
                        }
                        return Ok(Some(n));
                    }
                    proof {
                        k = k + 1;
                    }
                },
                None => {
                    assert(false);
                    return Ok(None);
                },
            }
        }
    }

    fn get(&self, path: &FacetPath) -> (r: Option<&Node>) {
        match self.try_get(path) {
            Ok(r) => r,
            Err(()) => {
                assert(false);
                None
            },
        }
    }
}

} // verus!

verus! {

/// A search finds a value at `p` exactly when the inspection visits `p`, and
/// what it finds is the first value visited there.
pub proof fn lemma_first_match(w: Seq<Visit>, p: PathView)
    ensures
        first_match(w, p) is Some <==> exists|i: int| 0 <= i < w.len() && (#[trigger] w[i]).0 == p,
        first_match(w, p) matches Some(v) ==> exists|i: int|
            0 <= i < w.len() && #[trigger] w[i] == (p, v) && forall|j: int| 0 <= j < i ==> (#[trigger] w[j]).0 != p,
    decreases w.len(),
{
    if w.len() > 0 {
        let rest = w.drop_first();
        lemma_first_match(rest, p);
        if w[0].0 != p {
            if exists|i: int| 0 <= i < w.len() && (#[trigger] w[i]).0 == p {
                let i = choose|i: int| 0 <= i < w.len() && (#[trigger] w[i]).0 == p;
                assert(rest[i - 1] == w[i]);
            }
            if first_match(w, p) is Some {
                let i = choose|i: int| 0 <= i < rest.len() && #[trigger] rest[i] == (p, first_match(w, p)->0)
                    && forall|j: int| 0 <= j < i ==> (#[trigger] rest[j]).0 != p;
                assert(w[i + 1] == rest[i]);
                assert forall|j: int| 0 <= j < i + 1 implies (#[trigger] w[j]).0 != p by {
                    if j > 0 {
                        assert(w[j] == rest[j - 1]);
                    }
                }
            }
        }
    }
}

/// Inspecting a struct or enum with fields visits its first field right after
/// the value itself: fields come out in declaration order.
pub proof fn lemma_fields_first(n: NodeView)
    requires
        n.value matches ValueView::Fields(fields) && fields.len() > 0,
    ensures
        n.value matches ValueView::Fields(fields) && inspection(n)[1] == (
            root_path() + split_dot(fields[0].0),
            fields[0].1,
        ),
{
    lemma_inspection_shape(n);
    let c = children(root_path(), n);
    lemma_walk_unfold(c);
    assert(c.last() == c[c.len() - 1]);
}

/// Inspecting a list visits its last item right after the list itself: the
/// items come out last first.
pub proof fn lemma_list_last_first(n: NodeView)
    requires
        n.value matches ValueView::List(items) && items.len() > 0,
    ensures
        n.value matches ValueView::List(items) && inspection(n)[1] == (
            root_path() + split_dot(decimal((items.len() - 1) as nat)),
            items.last(),
        ),
{
    lemma_inspection_shape(n);
    let c = children(root_path(), n);
    lemma_walk_unfold(c);
    assert(c.last() == c[c.len() - 1]);
}

/// The item at index `i` of a list is found one segment below the list: the
/// decimal notation of `i`.
pub proof fn lemma_index_segment(path: PathView, i: nat)
    ensures
        path + split_dot(decimal(i)) == path.push(decimal(i)),
{
    crate::path::lemma_decimal_dot_free(i);
    crate::path::lemma_split_dot_free(decimal(i));
    assert(path + seq![decimal(i)] =~= path.push(decimal(i)));
}

} // verus!

verus! {

/// Whether `v` is one of the sub-objects that `parent` puts on the stack.
pub open spec fn is_child_of(v: Visit, parent: Visit) -> bool {
    exists|k: int|
        0 <= k < children(parent.0, parent.1).len() && #[trigger] children(parent.0, parent.1)[k] == v
}

/// Each sub-object's path is its parent's path followed by the segments of one
/// label: a list index, a map key's text or a field name.
pub proof fn lemma_child_path(parent: Visit, k: int)
    requires
        0 <= k < children(parent.0, parent.1).len(),
    ensures
        exists|label: Seq<char>| #[trigger] split_dot(label) == children(parent.0, parent.1)[k].0.skip(
            parent.0.len() as int,
        ) && children(parent.0, parent.1)[k].0 == parent.0 + split_dot(label),
{
    let c = children(parent.0, parent.1);
    match parent.1.value {
        ValueView::List(items) => {
            let label = decimal(k as nat);
            assert((parent.0 + split_dot(label)).skip(parent.0.len() as int) =~= split_dot(label));
        },
        ValueView::Entries(entries) => {
            let label = entries[k].0;
            assert((parent.0 + split_dot(label)).skip(parent.0.len() as int) =~= split_dot(label));
        },
        ValueView::Fields(fields) => {
            let label = fields[fields.len() - 1 - k].0;
            assert((parent.0 + split_dot(label)).skip(parent.0.len() as int) =~= split_dot(label));
        },
        _ => {},
    }
}

/// Every visit of a walk was on the starting stack, or is a sub-object of a
/// value visited before it.
pub proof fn lemma_walk_parents(s: Seq<Visit>)
    ensures
        forall|i: int|
            0 <= i < walk(s).len() ==> s.contains(#[trigger] walk(s)[i]) || exists|j: int|
                0 <= j < i && is_child_of(walk(s)[i], #[trigger] walk(s)[j]),
    decreases stack_size(s),
{
    lemma_walk_unfold(s);
    if s.len() > 0 {
        let top = s.last();
        let c = children(top.0, top.1);
        let rest = s.drop_last() + c;
        lemma_step_smaller(s);
        lemma_walk_parents(rest);
        let w = walk(s);
        assert forall|i: int| 0 <= i < w.len() implies s.contains(#[trigger] w[i]) || exists|j: int|
            0 <= j < i && is_child_of(w[i], #[trigger] w[j]) by {
            if i == 0 {
                assert(s[s.len() - 1] == w[0]);
            } else {
                let x = w[i];
                assert(x == walk(rest)[i - 1]);
                if rest.contains(x) {
                    let m = choose|m: int| 0 <= m < rest.len() && rest[m] == x;
                    if m < s.len() - 1 {
                        assert(s[m] == x);
                    } else {
                        assert(c[m - (s.len() - 1)] == x);
                        assert(is_child_of(x, w[0]));
                    }
                } else {
                    let j = choose|j: int| 0 <= j < i - 1 && is_child_of(walk(rest)[i - 1], #[trigger] walk(rest)[j]);
                    assert(w[j + 1] == walk(rest)[j]);
                    assert(is_child_of(x, w[j + 1]));
                }
            }
        }
    }
}

/// Inspection is depth first: every visit after the root is a sub-object of a
/// value visited before it, found at that value's path followed by the
/// segments of one label (see `lemma_child_path`).
pub proof fn lemma_inspection_preorder(n: NodeView)
    ensures
        forall|i: int|
            1 <= i < inspection(n).len() ==> exists|j: int|
                0 <= j < i && is_child_of(#[trigger] inspection(n)[i], #[trigger] inspection(n)[j]),
{
    let w = inspection(n);
    let c = children(root_path(), n);
    lemma_inspection_shape(n);
    lemma_walk_parents(c);
    assert forall|i: int| 1 <= i < w.len() implies exists|j: int|
        0 <= j < i && is_child_of(#[trigger] w[i], #[trigger] w[j]) by {
        let x = w[i];
        assert(x == walk(c)[i - 1]);
        if c.contains(x) {
            let m = choose|m: int| 0 <= m < c.len() && c[m] == x;
            assert(w[0] == (root_path(), n));
            assert(children(w[0].0, w[0].1) == c);
            assert(children(w[0].0, w[0].1)[m] == x);
            assert(is_child_of(x, w[0]));
        } else {
            let j = choose|j: int| 0 <= j < i - 1 && is_child_of(walk(c)[i - 1], #[trigger] walk(c)[j]);
            assert(w[j + 1] == walk(c)[j]);
        }
    }
}

} // verus!

verus! {

/// Inspecting a map visits its last entry right after the map itself: the
/// entries come out last first, each under the map's path and its key.
pub proof fn lemma_entries_last_first(n: NodeView)
    requires
        n.value matches ValueView::Entries(entries) && entries.len() > 0,
    ensures
        n.value matches ValueView::Entries(entries) && inspection(n)[1] == (
            root_path() + split_dot(entries.last().0),
            entries.last().1,
        ),
{
    lemma_inspection_shape(n);
    let c = children(root_path(), n);
    lemma_walk_unfold(c);
    assert(c.last() == c[c.len() - 1]);
}

} // verus!
