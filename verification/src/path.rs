use vstd::prelude::*;

verus! {

/// The abstract form of a path: its segments, each a sequence of characters.
pub type PathView = Seq<Seq<char>>;

/// The segments of a dotted string: the text between the dots, in order.
/// A string without dots is one segment; each dot starts a new segment,
/// so `"a..b"` has an empty middle segment and `""` is one empty segment.
pub open spec fn split_dot(s: Seq<char>) -> PathView
    decreases s.len(),
{
    if s.len() == 0 {
        seq![Seq::<char>::empty()]
    } else {
        let prev = split_dot(s.drop_last());
        if s.last() == '.' {
            prev.push(Seq::<char>::empty())
        } else {
            prev.update(prev.len() - 1, prev.last().push(s.last()))
        }
    }
}

/// The segments written back with a dot between each two of them.
pub open spec fn join_dot(segments: PathView) -> Seq<char>
    decreases segments.len(),
{
    if segments.len() == 0 {
        Seq::<char>::empty()
    } else if segments.len() == 1 {
        segments[0]
    } else {
        join_dot(segments.drop_last()) + seq!['.'] + segments.last()
    }
}

/// The character of a decimal digit.
pub open spec fn digit_char(d: nat) -> char {
    if d == 0 { '0' }
    else if d == 1 { '1' }
    else if d == 2 { '2' }
    else if d == 3 { '3' }
    else if d == 4 { '4' }
    else if d == 5 { '5' }
    else if d == 6 { '6' }
    else if d == 7 { '7' }
    else if d == 8 { '8' }
    else { '9' }
}

/// The decimal notation of a natural number, without leading zeros.
pub open spec fn decimal(n: nat) -> Seq<char>
    decreases n,
{
    if n < 10 {
        seq![digit_char(n)]
    } else {
        decimal(n / 10).push(digit_char(n % 10))
    }
}

pub proof fn lemma_split_dot_nonempty(s: Seq<char>)
    ensures
        split_dot(s).len() >= 1,
    decreases s.len(),
{
    if s.len() > 0 {
        lemma_split_dot_nonempty(s.drop_last());
    }
}

/// Splitting at the dots loses nothing: no segment holds a dot, and writing the
/// segments back with dots between them gives the string that was split.
pub proof fn lemma_split_join(s: Seq<char>)
    ensures
        join_dot(split_dot(s)) == s,
        forall|i: int| 0 <= i < split_dot(s).len() ==> !(#[trigger] split_dot(s)[i]).contains('.'),
    decreases s.len(),
{
    if s.len() > 0 {
        let prev = split_dot(s.drop_last());
        lemma_split_dot_nonempty(s.drop_last());
        lemma_split_join(s.drop_last());
        let cur = split_dot(s);
        if s.last() == '.' {
            assert(cur.drop_last() =~= prev);
            assert(join_dot(cur) =~= s);
            assert forall|i: int| 0 <= i < cur.len() implies !(#[trigger] cur[i]).contains('.') by {
                if i < cur.len() - 1 {
                    assert(cur[i] == prev[i]);
                } else {
                    assert(cur[i] =~= Seq::<char>::empty());
                }
            }
        } else {
            let n = prev.len();
            let last = prev.last().push(s.last());
            assert forall|i: int| 0 <= i < cur.len() implies !(#[trigger] cur[i]).contains('.') by {
                if i < n - 1 {
                    assert(cur[i] == prev[i]);
                } else {
                    assert(cur[i] == last);
                    assert(!prev[n - 1].contains('.'));
                    if last.contains('.') {
                        let j = choose|j: int| 0 <= j < last.len() && last[j] == '.';
                        if j < last.len() - 1 {
                            assert(prev[n - 1][j] == '.');
                        }
                    }
                }
            }
            if n == 1 {
                assert(prev[0] =~= s.drop_last());
                assert(cur[0] =~= s);
            } else {
                assert(cur.drop_last() =~= prev.drop_last());
                assert(join_dot(prev) == join_dot(prev.drop_last()) + seq!['.'] + prev.last());
                assert(join_dot(cur) == join_dot(prev.drop_last()) + seq!['.'] + last);
                assert(join_dot(cur) =~= join_dot(prev).push(s.last()));
            }
        }
    }
}

/// A string without dots is a single segment.
pub proof fn lemma_split_dot_free(s: Seq<char>)
    requires
        !s.contains('.'),
    ensures
        split_dot(s) == seq![s],
    decreases s.len(),
{
    if s.len() > 0 {
        assert(!s.drop_last().contains('.')) by {
            if s.drop_last().contains('.') {
                let j = choose|j: int| 0 <= j < s.drop_last().len() && s.drop_last()[j] == '.';
                assert(s[j] == '.');
            }
        }
        lemma_split_dot_free(s.drop_last());
        assert(s.last() != '.') by {
            assert(s[s.len() - 1] == s.last());
        }
        assert(s.drop_last().push(s.last()) =~= s);
        assert(split_dot(s) =~= seq![s]);
    } else {
        assert(s =~= Seq::<char>::empty());
    }
}

/// Decimal notation holds no dot.
pub proof fn lemma_decimal_dot_free(n: nat)
    ensures
        !decimal(n).contains('.'),
    decreases n,
{
    if n >= 10 {
        lemma_decimal_dot_free(n / 10);
        let d = decimal(n);
        if d.contains('.') {
            let j = choose|j: int| 0 <= j < d.len() && d[j] == '.';
            if j < d.len() - 1 {
                assert(decimal(n / 10)[j] == '.');
            }
        }
    }
}

/// The number that a string of decimal digits denotes.
pub open spec fn digits_value(s: Seq<char>) -> int
    decreases s.len(),
{
    if s.len() == 0 {
        0
    } else {
        digits_value(s.drop_last()) * 10 + (s.last() as int - '0' as int)
    }
}

proof fn lemma_digit_char(d: nat)
    requires
        d < 10,
    ensures
        digit_char(d) as int - '0' as int == d,
        '0' <= digit_char(d) <= '9',
        d != 0 ==> digit_char(d) != '0',
{
    assert('0' as int == 48);
    assert('9' as int == 57);
    if d == 0 {
    } else if d == 1 {
        assert('1' as int == 49);
    } else if d == 2 {
        assert('2' as int == 50);
    } else if d == 3 {
        assert('3' as int == 51);
    } else if d == 4 {
        assert('4' as int == 52);
    } else if d == 5 {
        assert('5' as int == 53);
    } else if d == 6 {
        assert('6' as int == 54);
    } else if d == 7 {
        assert('7' as int == 55);
    } else if d == 8 {
        assert('8' as int == 56);
    } else {
    }
}

/// Decimal notation is a non-empty string of digits that denotes the number
/// it was written for, with no leading zero.
pub proof fn lemma_decimal_value(n: nat)
    ensures
        decimal(n).len() >= 1,
        forall|i: int| 0 <= i < decimal(n).len() ==> '0' <= #[trigger] decimal(n)[i] <= '9',
        digits_value(decimal(n)) == n,
        decimal(n).len() > 1 ==> decimal(n)[0] != '0',
    decreases n,
{
    if n < 10 {
        lemma_digit_char(n);
        assert(decimal(n).drop_last().len() == 0);
        assert(digits_value(decimal(n).drop_last()) == 0);
        assert(decimal(n).last() == digit_char(n));
    } else {
        lemma_digit_char(n % 10);
        lemma_decimal_value(n / 10);
        let d = decimal(n);
        assert(d.drop_last() =~= decimal(n / 10));
        assert forall|i: int| 0 <= i < d.len() implies '0' <= #[trigger] d[i] <= '9' by {
            if i < d.len() - 1 {
                assert(d[i] == decimal(n / 10)[i]);
            }
        }
        assert((n / 10) * 10 + n % 10 == n) by (nonlinear_arith);
        assert(digits_value(d.drop_last()) == n / 10);
        assert(d.last() == digit_char(n % 10));
        assert(digits_value(d) == digits_value(d.drop_last()) * 10 + (d.last() as int - '0' as int));
        if n / 10 >= 10 {
            lemma_decimal_value(n / 10 / 10);
            assert(decimal(n / 10).len() == decimal(n / 10 / 10).len() + 1);
        }
        if decimal(n / 10).len() == 1 {
            assert(n / 10 < 10);
            lemma_digit_char(n / 10);
            assert(decimal(n / 10)[0] == digit_char(n / 10));
        }
        assert(d[0] == decimal(n / 10)[0]);
    }
}

/// A path to a sub-object of a reflected value: the field names, list indices
/// and map keys that lead to it from the root, which is `$`.
#[derive(Debug, Clone, PartialEq, Eq, Hash)]
pub struct FacetPath {
    pub segments: Vec<String>,
}

impl View for FacetPath {
    type V = PathView;

    open spec fn view(&self) -> PathView {
        self.segments@.map_values(|s: String| s@)
    }
}

/// The one-character string of a decimal digit.
fn digit_string(d: usize) -> (s: String)
    requires
        d < 10,
    ensures
        s@ == seq![digit_char(d as nat)],
{
    let lit: &str = if d == 0 {
        proof { reveal_strlit("0"); }
        "0"
    } else if d == 1 {
        proof { reveal_strlit("1"); }
        "1"
    } else if d == 2 {
        proof { reveal_strlit("2"); }
        "2"
    } else if d == 3 {
        proof { reveal_strlit("3"); }
        "3"
    } else if d == 4 {
        proof { reveal_strlit("4"); }
        "4"
    } else if d == 5 {
        proof { reveal_strlit("5"); }
        "5"
    } else if d == 6 {
        proof { reveal_strlit("6"); }
        "6"
    } else if d == 7 {
        proof { reveal_strlit("7"); }
        "7"
    } else if d == 8 {
        proof { reveal_strlit("8"); }
        "8"
    } else {
        proof { reveal_strlit("9"); }
        "9"
    };
    let s = lit.to_owned();
    assert(s@ =~= seq![digit_char(d as nat)]);
    s
}

/// The decimal notation of an index, as `to_string` writes it.
pub fn decimal_string(n: usize) -> (s: String)
    ensures
        s@ == decimal(n as nat),
    decreases n,
{
    if n < 10 {
        digit_string(n)
    } else {
        let high = decimal_string(n / 10);
        let low = digit_string(n % 10);
        let s = high.concat(low.as_str());
        assert(s@ =~= decimal(n as nat));
        s
    }
}

impl FacetPath {
    /// The path of the root object: the single segment `$`.
    pub fn root() -> (p: FacetPath)
        ensures
            p@ == seq![seq!['$']],
    {
        proof { reveal_strlit("$"); }
        let mut segments: Vec<String> = Vec::new();
        let dollar = "$".to_owned();
        assert(dollar@ =~= seq!['$']);
        segments.push(dollar);
        let p = FacetPath { segments };
        assert(p@[0] == seq!['$']);
        assert(p@ =~= seq![seq!['$']]);
        p
    }

    /// Appends the segments of `path` after those of `self`.
    pub fn push(&mut self, path: &FacetPath)
        ensures
            final(self)@ == old(self)@ + path@,
    {
        let n = path.segments.len();
        let ghost start = self@;
        for i in 0..n
            invariant
                n == path.segments.len(),
                self@ == start + path@.take(i as int),
        {
            let seg = path.segments[i].clone();
            let ghost prev = self.segments@;
            self.segments.push(seg);
            assert(self.segments@ == prev.push(seg));
            assert(seg@ == path@[i as int]);
            assert(self@ =~= prev.map_values(|s: String| s@).push(seg@));
            assert(path@.take(i + 1) =~= path@.take(i as int).push(path@[i as int]));
            assert(self@ =~= start + path@.take(i + 1));
        }
        assert(path@.take(n as int) =~= path@);
    }

    /// A copy of this path, segment by segment.
    pub fn duplicate(&self) -> (p: FacetPath)
        ensures
            p@ == self@,
    {
        let mut p = FacetPath { segments: Vec::new() };
        assert(p@ =~= Seq::<Seq<char>>::empty());
        p.push(self);
        assert(p@ =~= self@);
        p
    }

    /// A new path: the segments of `self` followed by those of `path`.
    pub fn join(&self, path: &FacetPath) -> (p: FacetPath)
        ensures
            p@ == self@ + path@,
    {
        let mut new_path = self.duplicate();
        new_path.push(path);
        new_path
    }

    /// Whether both paths have the same segments.
    pub fn same_as(&self, other: &FacetPath) -> (b: bool)
        ensures
            b == (self@ == other@),
    {
        let n = self.segments.len();
        if n != other.segments.len() {
            assert(self@.len() != other@.len());
            return false;
        }
        for i in 0..n
            invariant
                n == self.segments.len(),
                n == other.segments.len(),
                forall|j: int| 0 <= j < i ==> self@[j] == other@[j],
        {
            if self.segments[i] != other.segments[i] {
                assert(self@[i as int] != other@[i as int]);
                return false;
            }
        }
        assert(self@ =~= other@);
        true
    }

    /// The path whose segments are the parts of `path` between its dots.
    pub fn parse(path: &str) -> (p: FacetPath)
        ensures
            p@ == split_dot(path@),
    {
        let n = path.unicode_len();
        let mut segments: Vec<String> = Vec::new();
        let mut start: usize = 0;
        let mut i: usize = 0;
        assert(path@.take(0) =~= Seq::<char>::empty());
        assert(path@.subrange(0, 0) =~= Seq::<char>::empty());
        assert(segments@.map_values(|s: String| s@).push(path@.subrange(0, 0)) =~= seq![Seq::<char>::empty()]);
        while i < n
            invariant
                n == path@.len(),
                start <= i <= n,
                split_dot(path@.take(i as int))
                    == segments@.map_values(|s: String| s@).push(path@.subrange(start as int, i as int)),
            decreases n - i,
        {
            let c = path.get_char(i);
            let ghost before = path@.take(i as int);
            assert(path@.take(i + 1).drop_last() =~= before);
            assert(path@.take(i + 1).last() == c);
            if c == '.' {
                let seg = path.substring_char(start, i).to_owned();
                segments.push(seg);
                start = i + 1;
                assert(segments@.map_values(|s: String| s@) =~= split_dot(before));
                assert(path@.subrange(start as int, i + 1) =~= Seq::<char>::empty());
            } else {
                assert(path@.subrange(start as int, i + 1) =~= path@.subrange(start as int, i as int).push(c));
                assert(split_dot(path@.take(i + 1)) =~= segments@.map_values(|s: String| s@).push(
                    path@.subrange(start as int, i + 1),
                ));
            }
            i = i + 1;
        }
        let last = path.substring_char(start, n).to_owned();
        segments.push(last);
        let p = FacetPath { segments };
        assert(path@.take(n as int) =~= path@);
        assert(p@ =~= split_dot(path@));
        p
    }

    /// The path of the element at `index` below `self`.
    pub fn index_child(&self, index: usize) -> (p: FacetPath)
        ensures
            p@ == self@ + split_dot(decimal(index as nat)),
    {
        let text = decimal_string(index);
        let tail = FacetPath::parse(text.as_str());
        self.join(&tail)
    }

    /// The path of the member labelled `label` below `self`.
    pub fn label_child(&self, label: &str) -> (p: FacetPath)
        ensures
            p@ == self@ + split_dot(label@),
    {
        let tail = FacetPath::parse(label);
        self.join(&tail)
    }
}

impl<'a> From<&'a str> for FacetPath {
    /// The path whose segments are the parts of `path` between its dots.
    fn from(path: &'a str) -> (p: FacetPath)
        ensures
            p@ == split_dot(path@),
    {
        FacetPath::parse(path)
    }
}

/// `from` states its result in its own `ensures` (the segments of the string),
/// so the generic specification of `From` is not claimed for this impl.
impl<'a> vstd::std_specs::convert::FromSpecImpl<&'a str> for FacetPath {
    open spec fn obeys_from_spec() -> bool {
        false
    }

    open spec fn from_spec(v: &'a str) -> FacetPath {
        choose|q: FacetPath| q@ == split_dot(v@)
    }
}

} // verus!
