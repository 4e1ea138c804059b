use vstd::prelude::*;

verus! {

/// What the inspection reads of a value's type: its name, which tells two
/// types apart, and whether values of the type can be compared for equality.
#[derive(Debug, Clone)]
pub struct TypeInfo {
    pub name: String,
    pub comparable: bool,
}

/// A scalar value: the two kinds that a modification can record, and any
/// other scalar. An other scalar is held by its equality class under its
/// type's own `PartialEq`: two scalars of one type are equal exactly when
/// their classes are, and `self_equal` is false for a value that its type
/// finds unequal to itself (such as a floating-point NaN).
#[derive(Debug, Clone)]
pub enum Scalar {
    U32(u32),
    Str(String),
    Other { class: u64, self_equal: bool },
}

/// The content of a reflected value.
///
/// `List` covers arrays, vectors, slices and references to sequences; its
/// items are reached by their index. `Entries` holds the entries of a map,
/// each under the text of its key. `Fields` holds the fields of a struct, or those of the active
/// variant of an enum, in declaration order. `Opaque` is a value that has no
/// sub-objects (a reference to something that is not a sequence), and
/// `Unsupported` a value whose kind the inspection does not handle.
#[derive(Debug)]
pub enum Value {
    Scalar(Scalar),
    List(Vec<Node>),
    Entries(Vec<(String, Node)>),
    Fields(Vec<(String, Node)>),
    Opaque,
    Unsupported,
}

/// A reflected value: its type and its content.
#[derive(Debug)]
pub struct Node {
    pub ty: TypeInfo,
    pub value: Value,
}

pub struct TypeInfoView {
    pub name: Seq<char>,
    pub comparable: bool,
}

pub enum ScalarView {
    U32(u32),
    Str(Seq<char>),
    Other { class: u64, self_equal: bool },
}

pub enum ValueView {
    Scalar(ScalarView),
    List(Seq<NodeView>),
    Entries(Seq<(Seq<char>, NodeView)>),
    Fields(Seq<(Seq<char>, NodeView)>),
    Opaque,
    Unsupported,
}

pub struct NodeView {
    pub ty: TypeInfoView,
    pub value: ValueView,
}

impl View for TypeInfo {
    type V = TypeInfoView;

    open spec fn view(&self) -> TypeInfoView {
        TypeInfoView { name: self.name@, comparable: self.comparable }
    }
}

impl View for Scalar {
    type V = ScalarView;

    open spec fn view(&self) -> ScalarView {
        match self {
            Scalar::U32(v) => ScalarView::U32(*v),
            Scalar::Str(s) => ScalarView::Str(s@),
            Scalar::Other { class, self_equal } => ScalarView::Other {
                class: *class,
                self_equal: *self_equal,
            },
        }
    }
}

pub open spec fn node_view(n: Node) -> NodeView
    decreases n, 2int,
{
    NodeView { ty: n.ty@, value: value_view(n.value) }
}

pub open spec fn value_view(v: Value) -> ValueView
    decreases v, 1int,
{
    match v {
        Value::Scalar(s) => ValueView::Scalar(s@),
        Value::List(items) => ValueView::List(nodes_view(items@)),
        Value::Entries(entries) => ValueView::Entries(entries_view(entries@)),
        Value::Fields(fields) => ValueView::Fields(entries_view(fields@)),
        Value::Opaque => ValueView::Opaque,
        Value::Unsupported => ValueView::Unsupported,
    }
}

pub open spec fn nodes_view(s: Seq<Node>) -> Seq<NodeView>
    decreases s, 0int,
{
    Seq::new(s.len(), |i: int| if 0 <= i < s.len() { node_view(s[i]) } else { arbitrary() })
}

pub open spec fn entries_view(s: Seq<(String, Node)>) -> Seq<(Seq<char>, NodeView)>
    decreases s, 0int,
{
    Seq::new(
        s.len(),
        |i: int| if 0 <= i < s.len() { (s[i].0@, node_view(s[i].1)) } else { arbitrary() },
    )
}

impl View for Value {
    type V = ValueView;

    open spec fn view(&self) -> ValueView {
        value_view(*self)
    }
}

impl View for Node {
    type V = NodeView;

    open spec fn view(&self) -> NodeView {
        node_view(*self)
    }
}

/// The number of values in a reflected value: itself and all values below it.
pub open spec fn node_size(n: NodeView) -> nat
    decreases n, 2int,
{
    1 + value_size(n.value)
}

pub open spec fn value_size(v: ValueView) -> nat
    decreases v, 1int,
{
    match v {
        ValueView::List(items) => list_size(items),
        ValueView::Entries(entries) => entries_size(entries),
        ValueView::Fields(fields) => entries_size(fields),
        _ => 0,
    }
}

pub open spec fn list_size(s: Seq<NodeView>) -> nat
    decreases s, 0int,
{
    if s.len() == 0 {
        0
    } else {
        list_size(s.drop_last()) + node_size(s.last())
    }
}

pub open spec fn entries_size(s: Seq<(Seq<char>, NodeView)>) -> nat
    decreases s, 0int,
{
    if s.len() == 0 {
        0
    } else {
        entries_size(s.drop_last()) + node_size(s.last().1)
    }
}

impl NodeView {
    /// Whether the value is a scalar.
    pub open spec fn is_scalar(self) -> bool {
        self.value is Scalar
    }

    /// Whether the inspection can visit the value.
    pub open spec fn is_supported(self) -> bool {
        !(self.value is Unsupported)
    }

    /// Whether both values have the same type.
    pub open spec fn same_type(self, other: NodeView) -> bool {
        self.ty.name == other.ty.name
    }

    /// Equality as reflection sees it: values are equal when their type can be
    /// compared, they agree in type and content, and no scalar inside them is
    /// unequal to itself.
    pub open spec fn reflect_eq(self, other: NodeView) -> bool {
        self.ty.comparable && self == other && self_equal(self)
    }
}

/// Whether every scalar in the value is equal to itself.
pub open spec fn self_equal(n: NodeView) -> bool
    decreases n, 2int,
{
    match n.value {
        ValueView::Scalar(ScalarView::Other { class: _, self_equal }) => self_equal,
        ValueView::List(items) => list_self_equal(items),
        ValueView::Entries(entries) => entries_self_equal(entries),
        ValueView::Fields(fields) => entries_self_equal(fields),
        _ => true,
    }
}

pub open spec fn list_self_equal(s: Seq<NodeView>) -> bool
    decreases s, 0int,
{
    if s.len() == 0 {
        true
    } else {
        list_self_equal(s.drop_last()) && self_equal(s.last())
    }
}

pub open spec fn entries_self_equal(s: Seq<(Seq<char>, NodeView)>) -> bool
    decreases s, 0int,
{
    if s.len() == 0 {
        true
    } else {
        entries_self_equal(s.drop_last()) && self_equal(s.last().1)
    }
}

proof fn lemma_list_self_equal(s: Seq<NodeView>)
    ensures
        list_self_equal(s) <==> forall|i: int| 0 <= i < s.len() ==> self_equal(#[trigger] s[i]),
    decreases s.len(),
{
    if s.len() > 0 {
        lemma_list_self_equal(s.drop_last());
        if list_self_equal(s) {
            assert forall|i: int| 0 <= i < s.len() implies self_equal(#[trigger] s[i]) by {
                if i < s.len() - 1 {
                    assert(s.drop_last()[i] == s[i]);
                }
            }
        }
        if forall|i: int| 0 <= i < s.len() ==> self_equal(#[trigger] s[i]) {
            assert forall|i: int| 0 <= i < s.drop_last().len() implies self_equal(#[trigger] s.drop_last()[i]) by {
                assert(s.drop_last()[i] == s[i]);
            }
            assert(self_equal(s[s.len() - 1]));
        }
    }
}

proof fn lemma_entries_self_equal(s: Seq<(Seq<char>, NodeView)>)
    ensures
        entries_self_equal(s) <==> forall|i: int| 0 <= i < s.len() ==> self_equal(#[trigger] s[i].1),
    decreases s.len(),
{
    if s.len() > 0 {
        lemma_entries_self_equal(s.drop_last());
        if entries_self_equal(s) {
            assert forall|i: int| 0 <= i < s.len() implies self_equal(#[trigger] s[i].1) by {
                if i < s.len() - 1 {
                    assert(s.drop_last()[i] == s[i]);
                }
            }
        }
        if forall|i: int| 0 <= i < s.len() ==> self_equal(#[trigger] s[i].1) {
            assert forall|i: int| 0 <= i < s.drop_last().len() implies self_equal(#[trigger] s.drop_last()[i].1) by {
                assert(s.drop_last()[i] == s[i]);
            }
            assert(self_equal(s[s.len() - 1].1));
        }
    }
}

/// Whether every scalar in the value is equal to itself.
pub fn node_self_equal(n: &Node) -> (r: bool)
    ensures
        r == self_equal(n@),
    decreases n,
{
    match &n.value {
        Value::Scalar(Scalar::Other { class: _, self_equal }) => *self_equal,
        Value::Scalar(_) => true,
        Value::List(items) => list_self_equal_exec(items),
        Value::Entries(entries) => entries_self_equal_exec(entries),
        Value::Fields(fields) => entries_self_equal_exec(fields),
        Value::Opaque => true,
        Value::Unsupported => true,
    }
}

fn list_self_equal_exec(items: &Vec<Node>) -> (r: bool)
    ensures
        r == list_self_equal(nodes_view(items@)),
    decreases items, 0int,
{
    proof {
        lemma_list_self_equal(nodes_view(items@));
    }
    let len = items.len();
    for i in 0..len
        invariant
            len == items.len(),
            forall|j: int| 0 <= j < i ==> self_equal(#[trigger] nodes_view(items@)[j]),
    {
        assert(decreases_to!(items => items@[i as int]));
        if !node_self_equal(&items[i]) {
            assert(!self_equal(nodes_view(items@)[i as int]));
            proof {
                lemma_list_self_equal(nodes_view(items@));
            }
            return false;
        }
    }
    proof {
        lemma_list_self_equal(nodes_view(items@));
    }
    true
}

fn entries_self_equal_exec(entries: &Vec<(String, Node)>) -> (r: bool)
    ensures
        r == entries_self_equal(entries_view(entries@)),
    decreases entries, 0int,
{
    proof {
        lemma_entries_self_equal(entries_view(entries@));
    }
    let len = entries.len();
    for i in 0..len
        invariant
            len == entries.len(),
            forall|j: int| 0 <= j < i ==> self_equal(#[trigger] entries_view(entries@)[j].1),
    {
        assert(decreases_to!(entries => entries@[i as int].1));
        if !node_self_equal(&entries[i].1) {
            assert(!self_equal(entries_view(entries@)[i as int].1));
            proof {
                lemma_entries_self_equal(entries_view(entries@));
            }
            return false;
        }
    }
    proof {
        lemma_entries_self_equal(entries_view(entries@));
    }
    true
}

fn type_info_equal(a: &TypeInfo, b: &TypeInfo) -> (r: bool)
    ensures
        r == (a@ == b@),
{
    a.comparable == b.comparable && a.name == b.name
}

fn scalar_equal(a: &Scalar, b: &Scalar) -> (r: bool)
    ensures
        r == (a@ == b@),
{
    match (a, b) {
        (Scalar::U32(x), Scalar::U32(y)) => *x == *y,
        (Scalar::Str(x), Scalar::Str(y)) => *x == *y,
        (Scalar::Other { class: c1, self_equal: e1 }, Scalar::Other { class: c2, self_equal: e2 }) => {
            *c1 == *c2 && *e1 == *e2
        },
        _ => false,
    }
}

/// Whether two reflected values agree in type and content, all the way down.
pub fn node_equal(a: &Node, b: &Node) -> (r: bool)
    ensures
        r == (a@ == b@),
    decreases a,
{
    if !type_info_equal(&a.ty, &b.ty) {
        return false;
    }
    let r = match (&a.value, &b.value) {
        (Value::Scalar(x), Value::Scalar(y)) => scalar_equal(x, y),
        (Value::List(x), Value::List(y)) => list_equal(x, y),
        (Value::Entries(x), Value::Entries(y)) => entries_equal(x, y),
        (Value::Fields(x), Value::Fields(y)) => entries_equal(x, y),
        (Value::Opaque, Value::Opaque) => true,
        (Value::Unsupported, Value::Unsupported) => true,
        _ => false,
    };
    assert(r == (a.value@ == b.value@));
    r
}

fn list_equal(a: &Vec<Node>, b: &Vec<Node>) -> (r: bool)
    ensures
        r == (nodes_view(a@) == nodes_view(b@)),
    decreases a, 0int,
{
    let n = a.len();
    if n != b.len() {
        assert(nodes_view(a@).len() != nodes_view(b@).len());
        return false;
    }
    for i in 0..n
        invariant
            n == a.len(),
            n == b.len(),
            forall|j: int| 0 <= j < i ==> node_view(a@[j]) == node_view(b@[j]),
    {
        assert(decreases_to!(a => a@[i as int]));
        if !node_equal(&a[i], &b[i]) {
            assert(nodes_view(a@)[i as int] != nodes_view(b@)[i as int]);
            return false;
        }
    }
    assert(nodes_view(a@) =~= nodes_view(b@));
    true
}

fn entries_equal(a: &Vec<(String, Node)>, b: &Vec<(String, Node)>) -> (r: bool)
    ensures
        r == (entries_view(a@) == entries_view(b@)),
    decreases a, 0int,
{
    let n = a.len();
    if n != b.len() {
        assert(entries_view(a@).len() != entries_view(b@).len());
        return false;
    }
    for i in 0..n
        invariant
            n == a.len(),
            n == b.len(),
            forall|j: int|
                0 <= j < i ==> a@[j].0@ == b@[j].0@ && node_view(a@[j].1) == node_view(b@[j].1),
    {
        assert(decreases_to!(a => a@[i as int].1));
        if a[i].0 != b[i].0 {
            assert(entries_view(a@)[i as int] != entries_view(b@)[i as int]);
            return false;
        }
        if !node_equal(&a[i].1, &b[i].1) {
            assert(entries_view(a@)[i as int] != entries_view(b@)[i as int]);
            return false;
        }
    }
    assert(entries_view(a@) =~= entries_view(b@));
    true
}

impl Node {
    /// Equality as reflection sees it (see `NodeView::reflect_eq`).
    pub fn reflect_eq(&self, other: &Node) -> (r: bool)
        ensures
            r == self@.reflect_eq(other@),
    {
        self.ty.comparable && node_equal(self, other) && node_self_equal(self)
    }

    /// Whether both values have the same type.
    pub fn same_type(&self, other: &Node) -> (r: bool)
        ensures
            r == self@.same_type(other@),
    {
        self.ty.name == other.ty.name
    }

    /// Whether the value is a scalar.
    pub fn is_scalar(&self) -> (r: bool)
        ensures
            r == self@.is_scalar(),
    {
        match &self.value {
            Value::Scalar(_) => true,
            _ => false,
        }
    }

    /// Whether the inspection can visit the value.
    pub fn is_supported(&self) -> (r: bool)
        ensures
            r == self@.is_supported(),
    {
        match &self.value {
            Value::Unsupported => false,
            _ => true,
        }
    }
}

impl TypeInfo {
    /// The type named `name`, whose values can be compared when `comparable`.
    pub fn new(name: &str, comparable: bool) -> (t: TypeInfo)
        ensures
            t@ == (TypeInfoView { name: name@, comparable }),
    {
        TypeInfo { name: name.to_owned(), comparable }
    }
}

impl Node {
    /// A `u32` value.
    pub fn u32(v: u32) -> (n: Node)
        ensures
            n@ == (NodeView {
                ty: TypeInfoView { name: seq!['u', '3', '2'], comparable: true },
                value: ValueView::Scalar(ScalarView::U32(v)),
            }),
    {
        proof {
            reveal_strlit("u32");
        }
        let n = Node { ty: TypeInfo::new("u32", true), value: Value::Scalar(Scalar::U32(v)) };
        assert(n.ty@.name =~= seq!['u', '3', '2']);
        n
    }

    /// A `String` value.
    pub fn string(s: &str) -> (n: Node)
        ensures
            n@ == (NodeView {
                ty: TypeInfoView { name: seq!['S', 't', 'r', 'i', 'n', 'g'], comparable: true },
                value: ValueView::Scalar(ScalarView::Str(s@)),
            }),
    {
        proof {
            reveal_strlit("String");
        }
        let n = Node {
            ty: TypeInfo::new("String", true),
            value: Value::Scalar(Scalar::Str(s.to_owned())),
        };
        assert(n.ty@.name =~= seq!['S', 't', 'r', 'i', 'n', 'g']);
        n
    }

    /// Any other scalar, of type `name`, held by its equality class.
    pub fn scalar(name: &str, comparable: bool, class: u64, self_equal: bool) -> (n: Node)
        ensures
            n@ == (NodeView {
                ty: TypeInfoView { name: name@, comparable },
                value: ValueView::Scalar(ScalarView::Other { class, self_equal }),
            }),
    {
        Node { ty: TypeInfo::new(name, comparable), value: Value::Scalar(Scalar::Other { class, self_equal }) }
    }

    /// A struct, or an enum in one of its variants, with the given fields.
    pub fn fields(name: &str, comparable: bool, fields: Vec<(String, Node)>) -> (n: Node)
        ensures
            n@ == (NodeView {
                ty: TypeInfoView { name: name@, comparable },
                value: ValueView::Fields(entries_view(fields@)),
            }),
    {
        Node { ty: TypeInfo::new(name, comparable), value: Value::Fields(fields) }
    }

    /// A list with the given items.
    pub fn list(name: &str, comparable: bool, items: Vec<Node>) -> (n: Node)
        ensures
            n@ == (NodeView {
                ty: TypeInfoView { name: name@, comparable },
                value: ValueView::List(nodes_view(items@)),
            }),
    {
        Node { ty: TypeInfo::new(name, comparable), value: Value::List(items) }
    }

    /// A map with the given entries, each under the text of its key.
    pub fn entries(name: &str, comparable: bool, entries: Vec<(String, Node)>) -> (n: Node)
        ensures
            n@ == (NodeView {
                ty: TypeInfoView { name: name@, comparable },
                value: ValueView::Entries(entries_view(entries@)),
            }),
    {
        Node { ty: TypeInfo::new(name, comparable), value: Value::Entries(entries) }
    }
}

fn copy_type_info(t: &TypeInfo) -> (r: TypeInfo)
    ensures
        r@ == t@,
{
    TypeInfo { name: t.name.clone(), comparable: t.comparable }
}

fn copy_scalar(s: &Scalar) -> (r: Scalar)
    ensures
        r@ == s@,
{
    match s {
        Scalar::U32(v) => Scalar::U32(*v),
        Scalar::Str(v) => Scalar::Str(v.clone()),
        Scalar::Other { class, self_equal } => Scalar::Other { class: *class, self_equal: *self_equal },
    }
}

fn copy_list(items: &Vec<Node>) -> (r: Vec<Node>)
    ensures
        nodes_view(r@) == nodes_view(items@),
    decreases items, 0int,
{
    let n = items.len();
    let mut out: Vec<Node> = Vec::new();
    for i in 0..n
        invariant
            n == items.len(),
            out@.len() == i,
            forall|j: int| 0 <= j < i ==> node_view(#[trigger] out@[j]) == node_view(items@[j]),
    {
        assert(decreases_to!(items => items@[i as int]));
        let c = items[i].duplicate();
        out.push(c);
        assert(out@[i as int] == c);
    }
    assert(nodes_view(out@) =~= nodes_view(items@));
    out
}

fn copy_entries(entries: &Vec<(String, Node)>) -> (r: Vec<(String, Node)>)
    ensures
        entries_view(r@) == entries_view(entries@),
    decreases entries, 0int,
{
    let n = entries.len();
    let mut out: Vec<(String, Node)> = Vec::new();
    for i in 0..n
        invariant
            n == entries.len(),
            out@.len() == i,
            forall|j: int|
                0 <= j < i ==> (#[trigger] out@[j]).0@ == entries@[j].0@ && node_view(out@[j].1)
                    == node_view(entries@[j].1),
    {
        assert(decreases_to!(entries => entries@[i as int].1));
        let label = entries[i].0.clone();
        let c = entries[i].1.duplicate();
        out.push((label, c));
        assert(out@[i as int] == (label, c));
    }
    assert(entries_view(out@) =~= entries_view(entries@));
    out
}

impl Node {
    /// A copy of this value, all the way down.
    pub fn duplicate(&self) -> (r: Node)
        ensures
            r@ == self@,
        decreases self,
    {
        let value = match &self.value {
            Value::Scalar(s) => Value::Scalar(copy_scalar(s)),
            Value::List(items) => Value::List(copy_list(items)),
            Value::Entries(entries) => Value::Entries(copy_entries(entries)),
            Value::Fields(fields) => Value::Fields(copy_entries(fields)),
            Value::Opaque => Value::Opaque,
            Value::Unsupported => Value::Unsupported,
        };
        let r = Node { ty: copy_type_info(&self.ty), value };
        assert(r.value@ == self.value@);
        r
    }
}

/// The definition that a type's shape gives, as far as the inspection reads
/// it; `Keyed` is a map definition.
#[derive(Debug, Clone, Copy, PartialEq, Eq)]
pub enum DefKind {
    Scalar,
    Array,
    List,
    Slice,
    Keyed,
    Other,
}

/// The type that a type's shape gives, as far as the inspection reads it; a
/// reference says whether it points to a sequence.
#[derive(Debug, Clone, Copy, PartialEq, Eq)]
pub enum TypeKind {
    Struct,
    Enum,
    Sequence,
    Reference { to_sequence: bool },
    Other,
}

/// How the inspection treats a value of a shape.
#[derive(Debug, Clone, Copy, PartialEq, Eq)]
pub enum ShapeKind {
    /// A scalar: it has no sub-objects.
    Scalar,
    /// An array, list, slice, sequence or reference to a sequence: its items.
    ListLike,
    /// A map: its entries, each under the text of its key.
    Entries,
    /// A struct: its fields.
    Struct,
    /// An enum: the fields of its active variant.
    Enum,
    /// A reference to something that is not a sequence: no sub-objects.
    Opaque,
    /// Any other shape: the inspection does not handle it.
    Unsupported,
}

/// The kind of a shape: its definition decides first (scalar, list-like,
/// map), then its type (struct, enum, sequence, reference).
pub open spec fn spec_classify(def: DefKind, ty: TypeKind) -> ShapeKind {
    match def {
        DefKind::Scalar => ShapeKind::Scalar,
        DefKind::Array | DefKind::List | DefKind::Slice => ShapeKind::ListLike,
        DefKind::Keyed => ShapeKind::Entries,
        DefKind::Other => match ty {
            TypeKind::Struct => ShapeKind::Struct,
            TypeKind::Enum => ShapeKind::Enum,
            TypeKind::Sequence => ShapeKind::ListLike,
            TypeKind::Reference { to_sequence } => if to_sequence {
                ShapeKind::ListLike
            } else {
                ShapeKind::Opaque
            },
            TypeKind::Other => ShapeKind::Unsupported,
        },
    }
}

/// How the inspection treats a value whose shape has definition `def` and
/// type `ty`.
pub fn classify(def: DefKind, ty: TypeKind) -> (k: ShapeKind)
    ensures
        k == spec_classify(def, ty),
{
    match def {
        DefKind::Scalar => ShapeKind::Scalar,
        DefKind::Array | DefKind::List | DefKind::Slice => ShapeKind::ListLike,
        DefKind::Keyed => ShapeKind::Entries,
        DefKind::Other => match ty {
            TypeKind::Struct => ShapeKind::Struct,
            TypeKind::Enum => ShapeKind::Enum,
            TypeKind::Sequence => ShapeKind::ListLike,
            TypeKind::Reference { to_sequence } => {
                if to_sequence {
                    ShapeKind::ListLike
                } else {
                    ShapeKind::Opaque
                }
            },
            TypeKind::Other => ShapeKind::Unsupported,
        },
    }
}

} // verus!

verus! {

/// The definition decides before the type: an array, list or slice is visited
/// item by item, a scalar has no sub-objects and a map is visited entry by
/// entry, whatever the type says; only a shape with no such definition is
/// sorted by its type.
pub proof fn lemma_classify_definition_first(t: TypeKind)
    ensures
        spec_classify(DefKind::Array, t) == ShapeKind::ListLike,
        spec_classify(DefKind::List, t) == ShapeKind::ListLike,
        spec_classify(DefKind::Slice, t) == ShapeKind::ListLike,
        spec_classify(DefKind::Scalar, t) == ShapeKind::Scalar,
        spec_classify(DefKind::Keyed, t) == ShapeKind::Entries,
{
}

/// A shape without a definition the inspection reads is sorted by its type:
/// structs by their fields, enums by the fields of their variant, sequences
/// and references to sequences item by item, other references as leaves, and
/// anything else as unsupported.
pub proof fn lemma_classify_by_type()
    ensures
        spec_classify(DefKind::Other, TypeKind::Struct) == ShapeKind::Struct,
        spec_classify(DefKind::Other, TypeKind::Enum) == ShapeKind::Enum,
        spec_classify(DefKind::Other, TypeKind::Sequence) == ShapeKind::ListLike,
        spec_classify(DefKind::Other, TypeKind::Reference { to_sequence: true }) == ShapeKind::ListLike,
        spec_classify(DefKind::Other, TypeKind::Reference { to_sequence: false }) == ShapeKind::Opaque,
        spec_classify(DefKind::Other, TypeKind::Other) == ShapeKind::Unsupported,
{
}

/// Only a shape with neither a definition nor a type that the inspection
/// reads is unsupported.
pub proof fn lemma_classify_unsupported(d: DefKind, t: TypeKind)
    ensures
        spec_classify(d, t) == ShapeKind::Unsupported <==> (d == DefKind::Other && t == TypeKind::Other),
{
}

} // verus!
