use vstd::prelude::*;

use crate::path::{FacetPath, PathView};

verus! {

/// The map that a sequence of entries describes when each entry is inserted
/// in turn: a later entry under a path replaces an earlier one.
pub open spec fn entries_map<V: View>(s: Seq<(FacetPath, V)>) -> Map<PathView, V::V>
    decreases s.len(),
{
    if s.len() == 0 {
        Map::empty()
    } else {
        entries_map(s.drop_last()).insert(s.last().0@, s.last().1@)
    }
}

/// No two entries have the same path.
pub open spec fn keys_distinct<V>(s: Seq<(FacetPath, V)>) -> bool {
    forall|i: int, j: int| 0 <= i < s.len() && 0 <= j < s.len() && i != j ==> s[i].0@ != s[j].0@
}

pub proof fn lemma_entries_map_domain<V: View>(s: Seq<(FacetPath, V)>, p: PathView)
    ensures
        entries_map(s).contains_key(p) <==> exists|i: int| 0 <= i < s.len() && s[i].0@ == p,
    decreases s.len(),
{
    if s.len() > 0 {
        lemma_entries_map_domain(s.drop_last(), p);
        if entries_map(s).contains_key(p) {
            if s.last().0@ == p {
                assert(s[s.len() - 1].0@ == p);
            } else {
                let i = choose|i: int| 0 <= i < s.drop_last().len() && s.drop_last()[i].0@ == p;
                assert(s[i] == s.drop_last()[i]);
            }
        }
        if exists|i: int| 0 <= i < s.len() && s[i].0@ == p {
            let i = choose|i: int| 0 <= i < s.len() && s[i].0@ == p;
            if i < s.len() - 1 {
                assert(s.drop_last()[i] == s[i]);
            }
        }
    }
}

pub proof fn lemma_entries_map_value<V: View>(s: Seq<(FacetPath, V)>, i: int)
    requires
        keys_distinct(s),
        0 <= i < s.len(),
    ensures
        entries_map(s).contains_key(s[i].0@),
        entries_map(s)[s[i].0@] == s[i].1@,
    decreases s.len(),
{
    if i < s.len() - 1 {
        assert(s.drop_last()[i] == s[i]);
        lemma_entries_map_value(s.drop_last(), i);
        assert(s.last().0@ != s[i].0@);
    }
}

pub proof fn lemma_entries_map_len<V: View>(s: Seq<(FacetPath, V)>)
    requires
        keys_distinct(s),
    ensures
        entries_map(s).dom().finite(),
        entries_map(s).dom().len() == s.len(),
    decreases s.len(),
{
    if s.len() > 0 {
        lemma_entries_map_len(s.drop_last());
        lemma_entries_map_domain(s.drop_last(), s.last().0@);
        if entries_map(s.drop_last()).contains_key(s.last().0@) {
            let i = choose|i: int| 0 <= i < s.drop_last().len() && s.drop_last()[i].0@ == s.last().0@;
            assert(s[i] == s.drop_last()[i]);
            assert(s[s.len() - 1] == s.last());
        }
    }
}

/// A map from paths to values, each path at most once; inserting under a path
/// that is already there replaces its value.
#[derive(Debug)]
pub struct PathMap<V> {
    entries: Vec<(FacetPath, V)>,
}

impl<V: View> View for PathMap<V> {
    type V = Map<PathView, V::V>;

    closed spec fn view(&self) -> Map<PathView, V::V> {
        entries_map(self.entries@)
    }
}

impl<V> PathMap<V> {
    #[verifier::type_invariant]
    closed spec fn well_formed(self) -> bool {
        keys_distinct(self.entries@)
    }
}

impl<V: View> PathMap<V> {
    /// The paths of the map, in the order in which they were first inserted.
    pub closed spec fn key_seq(self) -> Seq<PathView> {
        self.entries@.map_values(|e: (FacetPath, V)| e.0@)
    }

    /// The empty map.
    pub fn new() -> (m: Self)
        ensures
            m@ == Map::<PathView, V::V>::empty(),
            m.key_seq() == Seq::<PathView>::empty(),
    {
        let m = PathMap { entries: Vec::new() };
        assert(m.key_seq() =~= Seq::<PathView>::empty());
        m
    }

    /// The number of paths in the map; its paths are its domain, each once.
    pub fn len(&self) -> (n: usize)
        ensures
            n == self@.dom().len(),
            n == self.key_seq().len(),
            self@.dom().finite(),
            self.key_seq().no_duplicates(),
            forall|p: PathView| #[trigger] self@.contains_key(p) <==> self.key_seq().contains(p),
    {
        proof {
            use_type_invariant(self);
            lemma_entries_map_len(self.entries@);
            assert forall|p: PathView| #[trigger] self@.contains_key(p) <==> self.key_seq().contains(p) by {
                lemma_entries_map_domain(self.entries@, p);
                if self@.contains_key(p) {
                    let i = choose|i: int| 0 <= i < self.entries@.len() && self.entries@[i].0@ == p;
                    assert(self.key_seq()[i] == p);
                }
            }
            assert forall|i: int, j: int| 0 <= i < self.key_seq().len() && 0 <= j < self.key_seq().len() && i != j
                implies self.key_seq()[i] != self.key_seq()[j] by {
                assert(self.key_seq()[i] == self.entries@[i].0@);
                assert(self.key_seq()[j] == self.entries@[j].0@);
            }
        }
        self.entries.len()
    }

    /// The `i`-th path of the map, in insertion order, and its value.
    pub fn entry(&self, i: usize) -> (e: (&FacetPath, &V))
        requires
            i < self.key_seq().len(),
        ensures
            e.0@ == self.key_seq()[i as int],
            self@.contains_key(e.0@),
            self@[e.0@] == e.1@,
    {
        proof {
            use_type_invariant(self);
            lemma_entries_map_value(self.entries@, i as int);
        }
        let entry = &self.entries[i];
        (&entry.0, &entry.1)
    }

    /// The position of `path` among the entries, if it is there.
    fn position(&self, path: &FacetPath) -> (r: Option<usize>)
        ensures
            match r {
                Some(i) => i < self.entries@.len() && self.entries@[i as int].0@ == path@,
                None => forall|i: int| 0 <= i < self.entries@.len() ==> self.entries@[i].0@ != path@,
            },
    {
        let n = self.entries.len();
        for i in 0..n
            invariant
                n == self.entries@.len(),
                forall|j: int| 0 <= j < i ==> self.entries@[j].0@ != path@,
        {
            if self.entries[i].0.same_as(path) {
                return Some(i);
            }
        }
        None
    }

    /// Whether `path` is in the map.
    pub fn contains_key(&self, path: &FacetPath) -> (b: bool)
        ensures
            b == self@.contains_key(path@),
    {
        proof {
            lemma_entries_map_domain(self.entries@, path@);
        }
        self.position(path).is_some()
    }

    /// The value under `path`, if there is one.
    pub fn get(&self, path: &FacetPath) -> (r: Option<&V>)
        ensures
            match r {
                Some(v) => self@.contains_key(path@) && self@[path@] == v@,
                None => !self@.contains_key(path@),
            },
    {
        proof {
            use_type_invariant(self);
            lemma_entries_map_domain(self.entries@, path@);
        }
        match self.position(path) {
            Some(i) => {
                proof {
                    lemma_entries_map_value(self.entries@, i as int);
                }
                Some(&self.entries[i].1)
            },
            None => None,
        }
    }

    /// Puts `value` under `path`, replacing what was there.
    pub fn insert(&mut self, path: FacetPath, value: V)
        ensures
            final(self)@ == old(self)@.insert(path@, value@),
            old(self)@.contains_key(path@) ==> final(self).key_seq() == old(self).key_seq(),
            !old(self)@.contains_key(path@) ==> final(self).key_seq() == old(self).key_seq().push(path@),
    {
        proof {
            use_type_invariant(&*self);
            lemma_entries_map_domain(self.entries@, path@);
        }
        let ghost old_entries = self.entries@;
        let ghost pv = path@;
        let ghost vv = value@;
        let found = self.position(&path);
        let mut entries: Vec<(FacetPath, V)> = Vec::new();
        std::mem::swap(&mut entries, &mut self.entries);
        assert(entries@ == old_entries);
        match found {
            Some(i) => {
                let ghost new_entries = old_entries.update(i as int, (path, value));
                assert(keys_distinct(new_entries));
                entries.set(i, (path, value));
                self.entries = entries;
                proof {
                    assert(self.entries@ == new_entries);
                    assert forall|p: PathView| #[trigger] entries_map(new_entries).contains_key(p)
                        <==> entries_map(old_entries).insert(pv, vv).contains_key(p) by {
                        lemma_entries_map_domain(new_entries, p);
                        lemma_entries_map_domain(old_entries, p);
                        if p == pv {
                            assert(new_entries[i as int].0@ == p);
                        }
                        if p != pv && entries_map(old_entries).contains_key(p) {
                            let j = choose|j: int| 0 <= j < old_entries.len() && old_entries[j].0@ == p;
                            assert(new_entries[j] == old_entries[j]);
                        }
                        if entries_map(new_entries).contains_key(p) && p != pv {
                            let j = choose|j: int| 0 <= j < new_entries.len() && new_entries[j].0@ == p;
                            assert(new_entries[j] == old_entries[j]);
                        }
                    }
                    assert forall|p: PathView| #[trigger] entries_map(new_entries).contains_key(p)
                        implies entries_map(new_entries)[p] == entries_map(old_entries).insert(pv, vv)[p] by {
                        lemma_entries_map_domain(new_entries, p);
                        let j = choose|j: int| 0 <= j < new_entries.len() && new_entries[j].0@ == p;
                        lemma_entries_map_value(new_entries, j);
                        if j != i {
                            assert(new_entries[j] == old_entries[j]);
                            lemma_entries_map_value(old_entries, j);
                        }
                    }
                    assert(entries_map(new_entries) =~= entries_map(old_entries).insert(pv, vv));
                    assert(self.key_seq() =~= old(self).key_seq());
                }
            },
            None => {
                let ghost new_entries = old_entries.push((path, value));
                assert(keys_distinct(new_entries)) by {
                    assert forall|a: int, b: int|
                        0 <= a < new_entries.len() && 0 <= b < new_entries.len() && a != b implies new_entries[a].0@
                        != new_entries[b].0@ by {
                        if a < old_entries.len() && b < old_entries.len() {
                            assert(new_entries[a] == old_entries[a]);
                            assert(new_entries[b] == old_entries[b]);
                        } else if a < old_entries.len() {
                            assert(new_entries[a] == old_entries[a]);
                        } else {
                            assert(new_entries[b] == old_entries[b]);
                        }
                    }
                }
                entries.push((path, value));
                self.entries = entries;
                proof {
                    assert(self.entries@ == new_entries);
                    assert(new_entries.drop_last() =~= old_entries);
                    assert(self.key_seq() =~= old(self).key_seq().push(pv));
                }
            },
        }
    }
}

} // verus!
