//! The resolved overlay: a mapping from fragment filename to winning path.
//!
//! The mapping is kept as an association list sorted strictly by filename
//! under [`lex_lt`], so iterating it yields filenames in ascending
//! lexicographic order, independent of insertion order. Its mathematical
//! content is the finite map [`map_of`] over the list; sortedness makes that
//! representation canonical: two well-formed overlays with the same map are
//! the same value.

use crate::order::lemma_lex_lt_asymmetric;
use crate::order::lemma_lex_lt_irreflexive;
use crate::order::lemma_lex_lt_total;
use crate::order::lemma_lex_lt_transitive;
use crate::order::lex_lt;
use crate::order::str_eq;
use crate::order::str_lt;
use vstd::prelude::*;

verus! {

/// A discovered fragment: a filename and the full path of the directory
/// entry that currently owns that name.
pub struct Fragment {
    pub name: String,
    pub path: String,
}

impl View for Fragment {
    type V = (Seq<char>, Seq<char>);

    open spec fn view(&self) -> (Seq<char>, Seq<char>) {
        (self.name@, self.path@)
    }
}

/// The finite map held by an association list: later pairs win.
pub open spec fn map_of(s: Seq<(Seq<char>, Seq<char>)>) -> Map<Seq<char>, Seq<char>>
    decreases s.len(),
{
    if s.len() == 0 {
        Map::empty()
    } else {
        map_of(s.drop_last()).insert(s.last().0, s.last().1)
    }
}

/// No two pairs bear the same filename.
pub open spec fn keys_distinct(s: Seq<(Seq<char>, Seq<char>)>) -> bool {
    forall|i: int, j: int| 0 <= i < j < s.len() ==> s[i].0 != s[j].0
}

/// Filenames are strictly ascending.
pub open spec fn sorted_by_name(s: Seq<(Seq<char>, Seq<char>)>) -> bool {
    forall|i: int, j: int| 0 <= i < j < s.len() ==> lex_lt(s[i].0, s[j].0)
}

pub proof fn lemma_sorted_distinct(s: Seq<(Seq<char>, Seq<char>)>)
    requires
        sorted_by_name(s),
    ensures
        keys_distinct(s),
{
    assert forall|i: int, j: int| 0 <= i < j < s.len() implies s[i].0 != s[j].0 by {
        assert(lex_lt(s[i].0, s[j].0));
        lemma_lex_lt_irreflexive(s[i].0);
    }
}

/// A key is in the map exactly when some pair bears it.
pub proof fn lemma_map_of_contains(s: Seq<(Seq<char>, Seq<char>)>, k: Seq<char>)
    ensures
        map_of(s).contains_key(k) <==> exists|i: int| 0 <= i < s.len() && s[i].0 == k,
    decreases s.len(),
{
    if s.len() > 0 {
        lemma_map_of_contains(s.drop_last(), k);
        if map_of(s).contains_key(k) {
            if k == s.last().0 {
                assert(s[s.len() - 1].0 == k);
            } else {
                let i = choose|i: int| 0 <= i < s.drop_last().len() && s.drop_last()[i].0 == k;
                assert(s.drop_last()[i] == s[i]);
            }
        }
        if exists|i: int| 0 <= i < s.len() && s[i].0 == k {
            let i = choose|i: int| 0 <= i < s.len() && s[i].0 == k;
            if i < s.len() - 1 {
                assert(s.drop_last()[i] == s[i]);
            }
        }
    }
}

/// With distinct keys, each pair is in the map with its own value.
pub proof fn lemma_map_of_index(s: Seq<(Seq<char>, Seq<char>)>, i: int)
    requires
        keys_distinct(s),
        0 <= i < s.len(),
    ensures
        map_of(s).contains_key(s[i].0),
        map_of(s)[s[i].0] == s[i].1,
    decreases s.len(),
{
    if i == s.len() - 1 {
        assert(s.last() == s[i]);
    } else {
        assert forall|a: int, b: int|
            0 <= a < b < s.drop_last().len() implies s.drop_last()[a].0 != s.drop_last()[b].0 by {
            assert(s.drop_last()[a] == s[a]);
            assert(s.drop_last()[b] == s[b]);
        }
        lemma_map_of_index(s.drop_last(), i);
        assert(s.drop_last()[i] == s[i]);
        assert(s.last().0 == s[s.len() - 1].0);
        assert(s[i].0 != s[s.len() - 1].0);
    }
}

pub proof fn lemma_distinct_drop_last(s: Seq<(Seq<char>, Seq<char>)>)
    requires
        keys_distinct(s),
        s.len() > 0,
    ensures
        keys_distinct(s.drop_last()),
{
    assert forall|a: int, b: int|
        0 <= a < b < s.drop_last().len() implies s.drop_last()[a].0 != s.drop_last()[b].0 by {
        assert(s.drop_last()[a] == s[a]);
        assert(s.drop_last()[b] == s[b]);
    }
}

/// Removing the pair at `i` removes exactly its key from the map.
pub proof fn lemma_map_of_remove(s: Seq<(Seq<char>, Seq<char>)>, i: int)
    requires
        keys_distinct(s),
        0 <= i < s.len(),
    ensures
        map_of(s.remove(i)) == map_of(s).remove(s[i].0),
    decreases s.len(),
{
    s.remove_ensures(i);
    if i == s.len() - 1 {
        assert(s.remove(i) =~= s.drop_last());
        lemma_distinct_drop_last(s);
        lemma_map_of_contains(s.drop_last(), s[i].0);
        assert forall|j: int| 0 <= j < s.drop_last().len() implies s.drop_last()[j].0 != s[i].0 by {
            assert(s.drop_last()[j] == s[j]);
        }
        assert(!map_of(s.drop_last()).contains_key(s[i].0));
        assert(map_of(s.drop_last()).insert(s.last().0, s.last().1).remove(s[i].0) =~= map_of(
            s.drop_last(),
        ));
    } else {
        lemma_distinct_drop_last(s);
        lemma_map_of_remove(s.drop_last(), i);
        assert(s.drop_last()[i] == s[i]);
        assert(s.remove(i).drop_last() =~= s.drop_last().remove(i)) by {
            s.drop_last().remove_ensures(i);
        }
        assert(s.remove(i).last() == s.last());
        assert(s.last().0 != s[i].0);
        assert(map_of(s.remove(i)) == map_of(s.drop_last().remove(i)).insert(
            s.last().0,
            s.last().1,
        ));
        assert(map_of(s.drop_last()).remove(s[i].0).insert(s.last().0, s.last().1) =~= map_of(
            s.drop_last(),
        ).insert(s.last().0, s.last().1).remove(s[i].0));
    }
}

/// Inserting a pair with a fresh key inserts exactly that key in the map.
pub proof fn lemma_map_of_insert(s: Seq<(Seq<char>, Seq<char>)>, i: int, k: Seq<char>, v: Seq<char>)
    requires
        0 <= i <= s.len(),
        forall|j: int| 0 <= j < s.len() ==> s[j].0 != k,
    ensures
        map_of(s.insert(i, (k, v))) == map_of(s).insert(k, v),
    decreases s.len(),
{
    let s1 = s.insert(i, (k, v));
    s.insert_ensures(i, (k, v));
    if i == s.len() {
        assert(s1.drop_last() =~= s);
        assert(s1.last() == (k, v));
    } else {
        assert(s1.last() == s[s.len() - 1]);
        assert(s1.drop_last() =~= s.drop_last().insert(i, (k, v))) by {
            s.drop_last().insert_ensures(i, (k, v));
        }
        assert forall|j: int| 0 <= j < s.drop_last().len() implies s.drop_last()[j].0 != k by {
            assert(s.drop_last()[j] == s[j]);
        }
        lemma_map_of_insert(s.drop_last(), i, k, v);
        assert(s.last().0 != k);
        assert(map_of(s.drop_last()).insert(k, v).insert(s.last().0, s.last().1) =~= map_of(
            s.drop_last(),
        ).insert(s.last().0, s.last().1).insert(k, v));
    }
}

/// Sortedness makes the representation canonical: well-formed overlays with
/// the same map are the same sequence of pairs.
pub proof fn lemma_sorted_canonical(s1: Seq<(Seq<char>, Seq<char>)>, s2: Seq<(Seq<char>, Seq<char>)>)
    requires
        sorted_by_name(s1),
        sorted_by_name(s2),
        map_of(s1) == map_of(s2),
    ensures
        s1 == s2,
    decreases s1.len(),
{
    lemma_sorted_distinct(s1);
    lemma_sorted_distinct(s2);
    if s1.len() == 0 && s2.len() == 0 {
        assert(s1 =~= s2);
    } else if s1.len() == 0 {
        lemma_map_of_index(s2, 0);
        lemma_map_of_contains(s1, s2[0].0);
        assert(false);
    } else if s2.len() == 0 {
        lemma_map_of_index(s1, 0);
        lemma_map_of_contains(s2, s1[0].0);
        assert(false);
    } else {
        let k1 = s1[0].0;
        let k2 = s2[0].0;
        lemma_map_of_index(s1, 0);
        lemma_map_of_index(s2, 0);
        lemma_map_of_contains(s2, k1);
        lemma_map_of_contains(s1, k2);
        let i2 = choose|i: int| 0 <= i < s2.len() && s2[i].0 == k1;
        let i1 = choose|i: int| 0 <= i < s1.len() && s1[i].0 == k2;
        if i1 != 0 && i2 != 0 {
            assert(lex_lt(k1, s1[i1].0));
            assert(lex_lt(k2, s2[i2].0));
            lemma_lex_lt_asymmetric(k1, k2);
            assert(false);
        }
        assert(k1 == k2);
        assert(s1[0].1 == map_of(s1)[k1]);
        assert(s2[0].1 == map_of(s2)[k1]);
        lemma_map_of_remove(s1, 0);
        lemma_map_of_remove(s2, 0);
        s1.remove_ensures(0);
        s2.remove_ensures(0);
        assert forall|a: int, b: int|
            0 <= a < b < s1.remove(0).len() implies lex_lt(s1.remove(0)[a].0, s1.remove(0)[b].0) by {
            assert(s1.remove(0)[a] == s1[a + 1]);
            assert(s1.remove(0)[b] == s1[b + 1]);
        }
        assert forall|a: int, b: int|
            0 <= a < b < s2.remove(0).len() implies lex_lt(s2.remove(0)[a].0, s2.remove(0)[b].0) by {
            assert(s2.remove(0)[a] == s2[a + 1]);
            assert(s2.remove(0)[b] == s2[b + 1]);
        }
        lemma_sorted_canonical(s1.remove(0), s2.remove(0));
        assert forall|i: int| 0 <= i < s1.len() implies s1[i] == s2[i] by {
            if i > 0 {
                assert(s1.remove(0)[i - 1] == s1[i]);
                assert(s2.remove(0)[i - 1] == s2[i]);
            }
        }
        assert(s1 =~= s2);
    }
}

/// The resolved mapping from filename to winning path, with unique keys and
/// ascending lexicographic iteration order.
pub struct ResolvedOverlay {
    entries: Vec<Fragment>,
}

impl View for ResolvedOverlay {
    type V = Seq<(Seq<char>, Seq<char>)>;

    closed spec fn view(&self) -> Seq<(Seq<char>, Seq<char>)> {
        self.entries@.map_values(|f: Fragment| f@)
    }
}

/// First index whose filename is not strictly below `name`; all earlier
/// filenames are strictly below it.
fn lower_bound(entries: &Vec<Fragment>, name: &str) -> (i: usize)
    ensures
        i <= entries@.len(),
        forall|j: int| 0 <= j < i ==> lex_lt(entries@[j].name@, name@),
        i < entries@.len() ==> !lex_lt(entries@[i as int].name@, name@),
{
    let mut i: usize = 0;
    loop
        invariant
            i <= entries@.len(),
            forall|j: int| 0 <= j < i ==> lex_lt(entries@[j].name@, name@),
        ensures
            i <= entries@.len(),
            forall|j: int| 0 <= j < i ==> lex_lt(entries@[j].name@, name@),
            i < entries@.len() ==> !lex_lt(entries@[i as int].name@, name@),
        decreases entries@.len() - i,
    {
        if i >= entries.len() {
            break ;
        }
        if !str_lt(entries[i].name.as_str(), name) {
            break ;
        }
        i = i + 1;
    }
    i
}

impl ResolvedOverlay {
    /// The overlay is sorted strictly by filename.
    pub open spec fn wf(&self) -> bool {
        sorted_by_name(self@)
    }

    /// The mapping as a finite map from filename to path.
    pub open spec fn as_map(&self) -> Map<Seq<char>, Seq<char>> {
        map_of(self@)
    }

    /// An empty overlay.
    pub fn empty() -> (r: Self)
        ensures
            r@ == Seq::<(Seq<char>, Seq<char>)>::empty(),
            r.wf(),
            r.as_map() == Map::<Seq<char>, Seq<char>>::empty(),
    {
        let r = ResolvedOverlay { entries: Vec::new() };
        proof {
            assert(r@ =~= Seq::<(Seq<char>, Seq<char>)>::empty());
        }
        r
    }

    /// How many filenames are mapped.
    pub fn len(&self) -> (r: usize)
        ensures
            r == self@.len(),
    {
        self.entries.len()
    }

    /// The winning path for `name`, when the overlay maps it.
    pub fn get(&self, name: &str) -> (r: Option<&String>)
        requires
            self.wf(),
        ensures
            match r {
                Some(p) => self.as_map().contains_key(name@) && p@ == self.as_map()[name@],
                None => !self.as_map().contains_key(name@),
            },
    {
        let i = lower_bound(&self.entries, name);
        proof {
            assert(forall|j: int|
                0 <= j < self@.len() ==> self@[j] == self.entries@.map_values(|f: Fragment| f@)[j]);
        }
        if i < self.entries.len() && str_eq(self.entries[i].name.as_str(), name) {
            proof {
                lemma_sorted_distinct(self@);
                lemma_map_of_index(self@, i as int);
            }
            Some(&self.entries[i].path)
        } else {
            proof {
                assert forall|j: int| 0 <= j < self@.len() implies self@[j].0 != name@ by {
                    if j < i {
                        assert(lex_lt(self@[j].0, name@));
                        lemma_lex_lt_irreflexive(name@);
                    } else {
                        assert(!lex_lt(self@[i as int].0, name@));
                        lemma_lex_lt_total(self@[i as int].0, name@);
                        assert(lex_lt(name@, self@[i as int].0));
                        if j > i {
                            assert(lex_lt(self@[i as int].0, self@[j].0));
                            lemma_lex_lt_transitive(name@, self@[i as int].0, self@[j].0);
                        }
                        lemma_lex_lt_irreflexive(name@);
                    }
                }
                lemma_map_of_contains(self@, name@);
            }
            None
        }
    }

    /// The filenames, in iteration (ascending lexicographic) order.
    pub fn keys(&self) -> (r: Vec<String>)
        ensures
            r@.len() == self@.len(),
            forall|i: int| 0 <= i < r@.len() ==> r@[i]@ == self@[i].0,
    {
        let mut r: Vec<String> = Vec::new();
        let mut i: usize = 0;
        proof {
            assert(self@.len() == self.entries@.len());
        }
        while i < self.entries.len()
            invariant
                i <= self.entries@.len(),
                self@.len() == self.entries@.len(),
                r@.len() == i,
                forall|j: int| 0 <= j < i ==> r@[j]@ == self@[j].0,
            decreases self.entries@.len() - i,
        {
            r.push(self.entries[i].name.clone());
            i = i + 1;
        }
        r
    }

    /// The fragments, in iteration order.
    pub fn fragments(&self) -> (r: &Vec<Fragment>)
        ensures
            r@.len() == self@.len(),
            forall|i: int| 0 <= i < r@.len() ==> r@[i]@ == self@[i],
    {
        &self.entries
    }

    /// Inserts or overwrites the mapping for a filename, keeping the overlay
    /// sorted.
    #[verifier::rlimit(60)]
    pub fn insert_file(&mut self, name: String, path: String)
        requires
            old(self).wf(),
        ensures
            final(self).wf(),
            final(self).as_map() == old(self).as_map().insert(name@, path@),
    {
        let ghost s0 = self@;
        let i = lower_bound(&self.entries, name.as_str());
        proof {
            lemma_sorted_distinct(s0);
        }
        if i < self.entries.len() && str_eq(self.entries[i].name.as_str(), name.as_str()) {
            proof {
                lemma_map_of_remove(s0, i as int);
                s0.remove_ensures(i as int);
            }
            self.entries.remove(i);
            proof {
                assert(self@ =~= s0.remove(i as int));
            }
            let ghost s1 = self@;
            proof {
                assert forall|j: int| 0 <= j < s1.len() implies s1[j].0 != name@ by {
                    if j < i {
                        assert(s1[j] == s0[j]);
                        assert(lex_lt(s0[j].0, name@));
                        lemma_lex_lt_irreflexive(name@);
                    } else {
                        assert(s1[j] == s0[j + 1]);
                        assert(s0[i as int].0 != s0[j + 1].0);
                    }
                }
            }
            self.entries.insert(i, Fragment { name, path });
            proof {
                assert(self@ =~= s1.insert(i as int, (name@, path@)));
                lemma_map_of_insert(s1, i as int, name@, path@);
                s1.insert_ensures(i as int, (name@, path@));
                assert(self.as_map() =~= old(self).as_map().insert(name@, path@));
                assert forall|a: int, b: int|
                    0 <= a < b < self@.len() implies lex_lt(self@[a].0, self@[b].0) by {
                    assert(self@[a].0 == s0[a].0);
                    assert(self@[b].0 == s0[b].0);
                }
            }
        } else {
            proof {
                if (i as int) < s0.len() {
                    assert(!lex_lt(s0[i as int].0, name@));
                    lemma_lex_lt_total(s0[i as int].0, name@);
                    assert(lex_lt(name@, s0[i as int].0));
                }
                assert forall|j: int| 0 <= j < s0.len() implies s0[j].0 != name@ by {
                    if j < i {
                        lemma_lex_lt_irreflexive(name@);
                    } else {
                        if j > i {
                            lemma_lex_lt_transitive(name@, s0[i as int].0, s0[j].0);
                        }
                        lemma_lex_lt_irreflexive(name@);
                    }
                }
            }
            self.entries.insert(i, Fragment { name, path });
            proof {
                assert(self@ =~= s0.insert(i as int, (name@, path@)));
                lemma_map_of_insert(s0, i as int, name@, path@);
                s0.insert_ensures(i as int, (name@, path@));
                assert forall|a: int, b: int|
                    0 <= a < b < self@.len() implies lex_lt(self@[a].0, self@[b].0) by {
                    if b < i {
                        assert(self@[a] == s0[a] && self@[b] == s0[b]);
                    } else if b == i {
                        assert(self@[a] == s0[a]);
                        assert(lex_lt(s0[a].0, name@));
                    } else if a < i {
                        assert(self@[a] == s0[a] && self@[b] == s0[b - 1]);
                        if a == b - 1 {
                        } else {
                            assert(lex_lt(s0[a].0, s0[b - 1].0));
                        }
                    } else if a == i {
                        assert(self@[b] == s0[b - 1]);
                        assert(lex_lt(name@, s0[i as int].0));
                        if b - 1 > i {
                            lemma_lex_lt_transitive(name@, s0[i as int].0, s0[b - 1].0);
                        }
                    } else {
                        assert(self@[a] == s0[a - 1] && self@[b] == s0[b - 1]);
                        assert(lex_lt(s0[a - 1].0, s0[b - 1].0));
                    }
                }
            }
        }
    }

    /// Deletes the mapping for a filename, if present.
    pub fn remove_name(&mut self, name: &str)
        requires
            old(self).wf(),
        ensures
            final(self).wf(),
            final(self).as_map() == old(self).as_map().remove(name@),
    {
        let ghost s0 = self@;
        let i = lower_bound(&self.entries, name);
        proof {
            lemma_sorted_distinct(s0);
        }
        if i < self.entries.len() && str_eq(self.entries[i].name.as_str(), name) {
            proof {
                lemma_map_of_remove(s0, i as int);
                s0.remove_ensures(i as int);
            }
            self.entries.remove(i);
            proof {
                assert(self@ =~= s0.remove(i as int));
                assert forall|a: int, b: int|
                    0 <= a < b < self@.len() implies lex_lt(self@[a].0, self@[b].0) by {
                    let a0: int = if a < i { a } else { a + 1 };
                    let b0: int = if b < i { b } else { b + 1 };
                    assert(self@[a] == s0[a0]);
                    assert(self@[b] == s0[b0]);
                    assert(lex_lt(s0[a0].0, s0[b0].0));
                }
            }
        } else {
            proof {
                assert forall|j: int| 0 <= j < s0.len() implies s0[j].0 != name@ by {
                    if j < i {
                        lemma_lex_lt_irreflexive(name@);
                    } else {
                        assert(!lex_lt(s0[i as int].0, name@));
                        lemma_lex_lt_total(s0[i as int].0, name@);
                        if j > i {
                            lemma_lex_lt_transitive(name@, s0[i as int].0, s0[j].0);
                        }
                        lemma_lex_lt_irreflexive(name@);
                    }
                }
                lemma_map_of_contains(s0, name@);
                assert(map_of(s0).remove(name@) =~= map_of(s0));
            }
        }
    }
}

} // verus!
