use vstd::prelude::*;

use crate::order::{
    char_views, distinct, lex_lt, search_sorted, sorted, strictly_sorted, views,
};
use crate::text::chars_of;

verus! {

/// A finite set of names (branch names) without repeats, kept in ascending
/// order (`lex_le`, the order of `String`), so that a name is looked up by
/// binary search and the members are handed out in order.
pub struct NameSet {
    names: Vec<String>,
    keys: Vec<Vec<char>>,
}

impl View for NameSet {
    type V = Set<Seq<char>>;

    closed spec fn view(&self) -> Set<Seq<char>> {
        views(self.names@).to_set()
    }
}

/// Distinct sequences: their set has as many members as the sequence has
/// entries.
proof fn lemma_distinct_len(s: Seq<Seq<char>>)
    requires
        distinct(s),
    ensures
        s.to_set().len() == s.len(),
        s.to_set().finite(),
{
    assert(s.no_duplicates()) by {
        assert forall|i: int, j: int|
            0 <= i < s.len() && 0 <= j < s.len() && i != j implies s[i] != s[j] by {
            if i < j {
                assert(s[i] != s[j]);
            } else {
                assert(s[j] != s[i]);
            }
        }
    }
    s.unique_seq_to_set();
    vstd::seq_lib::seq_to_set_is_finite(s);
}

/// A strictly ascending sequence has no repeats.
proof fn lemma_strictly_sorted_distinct(s: Seq<Seq<char>>)
    requires
        strictly_sorted(s),
    ensures
        distinct(s),
{
    assert forall|i: int, j: int| 0 <= i < j < s.len() implies #[trigger] s[i] != #[trigger] s[j] by {
        assert(lex_lt(s[i], s[j]));
    }
}

impl NameSet {
    #[verifier::type_invariant]
    spec fn ascending(&self) -> bool {
        &&& char_views(self.keys@) == views(self.names@)
        &&& strictly_sorted(views(self.names@))
    }

    /// The set is finite, with as many members as names are stored.
    proof fn lemma_len(&self)
        requires
            strictly_sorted(views(self.names@)),
        ensures
            self@.finite(),
            self@.len() == self.names.len(),
    {
        lemma_strictly_sorted_distinct(views(self.names@));
        lemma_distinct_len(views(self.names@));
    }

    /// The empty set.
    pub fn new() -> (s: Self)
        ensures
            s@ == Set::<Seq<char>>::empty(),
    {
        let names: Vec<String> = Vec::new();
        let keys: Vec<Vec<char>> = Vec::new();
        assert(char_views(keys@) =~= views(names@));
        let s = NameSet { names, keys };
        assert(s@ =~= Set::<Seq<char>>::empty());
        s
    }

    /// How many names the set holds.
    pub fn len(&self) -> (n: usize)
        ensures
            n == self@.len(),
            self@.finite(),
    {
        proof {
            use_type_invariant(self);
            self.lemma_len();
        }
        self.names.len()
    }

    /// Whether the set holds no name.
    pub fn is_empty(&self) -> (b: bool)
        ensures
            b == (self@ == Set::<Seq<char>>::empty()),
    {
        proof {
            use_type_invariant(self);
            self.lemma_len();
            if self.names.len() > 0 {
                assert(self@.contains(views(self.names@)[0]));
            } else {
                assert(self@ =~= Set::<Seq<char>>::empty());
            }
        }
        self.names.len() == 0
    }

    /// Where `name` is stored (`Ok`), or where it would go to keep the
    /// names in order (`Err`).
    fn find(&self, name: &str) -> (found: Result<usize, usize>)
        ensures
            match found {
                Ok(i) => i < self.names.len() && self.names[i as int]@ == name@,
                Err(p) => p <= self.names.len() && !self@.contains(name@)
                    && (forall|k: int| 0 <= k < p ==> lex_lt(#[trigger] views(self.names@)[k], name@))
                    && (forall|k: int| p <= k < self.names.len() ==> lex_lt(name@, #[trigger] views(self.names@)[k])),
            },
    {
        proof {
            use_type_invariant(self);
        }
        let key = chars_of(name);
        let found = search_sorted(&self.keys, &key);
        proof {
            let v = views(self.names@);
            assert(char_views(self.keys@).len() == self.keys.len());
            assert(v.len() == self.names.len());
            assert forall|k: int| 0 <= k < self.keys.len() implies #[trigger] self.keys@[k]@ == v[k] by {
                assert(char_views(self.keys@)[k] == self.keys@[k]@);
            }
            match found {
                Ok(i) => {
                    assert(v[i as int] == self.names[i as int]@);
                },
                Err(p) => {
                    if self@.contains(name@) {
                        let k = choose|k: int| 0 <= k < v.len() && v[k] == name@;
                        assert(self.keys@[k]@ == name@);
                    }
                },
            }
        }
        found
    }

    /// Whether `name` is a member.
    pub fn contains(&self, name: &str) -> (b: bool)
        ensures
            b == self@.contains(name@),
    {
        match self.find(name) {
            Ok(i) => {
                assert(views(self.names@)[i as int] == name@);
                true
            },
            Err(_) => false,
        }
    }

    /// Adds `name`; a member stays a single member.
    pub fn insert(&mut self, name: String)
        ensures
            final(self)@ == old(self)@.insert(name@),
    {
        proof {
            use_type_invariant(&*self);
        }
        match self.find(name.as_str()) {
            Ok(i) => {
                assert(views(self.names@)[i as int] == name@);
                assert(self@.insert(name@) =~= self@);
            },
            Err(p) => {
                let ghost before = views(self.names@);
                let ghost x = name@;
                let key = chars_of(name.as_str());
                let mut taken = NameSet::new();
                std::mem::swap(&mut taken, self);
                proof {
                    use_type_invariant(&taken);
                    assert(char_views(taken.keys@).len() == views(taken.names@).len());
                }
                let NameSet { mut names, mut keys } = taken;
                names.insert(p, name);
                keys.insert(p, key);
                proof {
                    let after = views(names@);
                    assert(after =~= before.insert(p as int, x));
                    assert(char_views(keys@) =~= after);
                    assert forall|i: int, j: int| 0 <= i < j < after.len() implies lex_lt(
                        #[trigger] after[i],
                        #[trigger] after[j],
                    ) by {
                        if i < p && j > p {
                            assert(after[j] == before[j - 1]);
                        } else if i > p {
                            assert(after[i] == before[i - 1] && after[j] == before[j - 1]);
                        } else if i == p {
                            assert(after[j] == before[j - 1]);
                        }
                    }
                    assert forall|y: Seq<char>| after.contains(y) <==> before.contains(y) || y == x by {
                        if after.contains(y) {
                            let k = choose|k: int| 0 <= k < after.len() && after[k] == y;
                            if k < p {
                                assert(before[k] == y);
                            } else if k > p {
                                assert(before[k - 1] == y);
                            }
                        }
                        if before.contains(y) {
                            let k = choose|k: int| 0 <= k < before.len() && before[k] == y;
                            if k < p {
                                assert(after[k] == y);
                            } else {
                                assert(after[k + 1] == y);
                            }
                        }
                        if y == x {
                            assert(after[p as int] == y);
                        }
                    }
                }
                *self = NameSet { names, keys };
                assert(self@ =~= old(self)@.insert(name@));
            },
        }
    }

    /// Removes `name` if it is a member.
    pub fn remove(&mut self, name: &str)
        ensures
            final(self)@ == old(self)@.remove(name@),
    {
        proof {
            use_type_invariant(&*self);
            lemma_strictly_sorted_distinct(views(self.names@));
        }
        match self.find(name) {
            Ok(i) => {
                let ghost before = views(self.names@);
                let mut taken = NameSet::new();
                std::mem::swap(&mut taken, self);
                proof {
                    use_type_invariant(&taken);
                    assert(char_views(taken.keys@).len() == views(taken.names@).len());
                }
                let NameSet { mut names, mut keys } = taken;
                names.remove(i);
                keys.remove(i);
                proof {
                    let after = views(names@);
                    assert(after =~= before.remove(i as int));
                    assert(char_views(keys@) =~= after);
                    assert forall|a: int, b: int| 0 <= a < b < after.len() implies lex_lt(
                        #[trigger] after[a],
                        #[trigger] after[b],
                    ) by {
                        if a < i {
                            if b < i {
                                assert(after[a] == before[a] && after[b] == before[b]);
                            } else {
                                assert(after[a] == before[a] && after[b] == before[b + 1]);
                            }
                        } else {
                            assert(after[a] == before[a + 1] && after[b] == before[b + 1]);
                        }
                    }
                    assert forall|x: Seq<char>| after.contains(x) <==> before.contains(x) && x != name@ by {
                        if after.contains(x) {
                            let k = choose|k: int| 0 <= k < after.len() && after[k] == x;
                            if k < i {
                                assert(before[k] == x);
                                assert(before[k] != before[i as int]);
                            } else {
                                assert(before[k + 1] == x);
                                assert(before[i as int] != before[k + 1]);
                            }
                        }
                        if before.contains(x) && x != name@ {
                            let k = choose|k: int| 0 <= k < before.len() && before[k] == x;
                            if k < i {
                                assert(after[k] == x);
                            } else {
                                assert(k != i);
                                assert(after[k - 1] == x);
                            }
                        }
                    }
                }
                *self = NameSet { names, keys };
                assert(self@ =~= old(self)@.remove(name@));
            },
            Err(_) => {
                assert(self@.remove(name@) =~= self@);
            },
        }
    }

    /// Removes every name.
    pub fn clear(&mut self)
        ensures
            final(self)@ == Set::<Seq<char>>::empty(),
    {
        let cleared = NameSet::new();
        *self = cleared;
    }

    /// The members in ascending order (`lex_le`), each once.
    pub fn to_sorted_vec(&self) -> (names: Vec<String>)
        ensures
            sorted(views(names@)),
            distinct(views(names@)),
            views(names@).to_set() == self@,
            names.len() == self@.len(),
    {
        proof {
            use_type_invariant(self);
            self.lemma_len();
            lemma_strictly_sorted_distinct(views(self.names@));
        }
        let names = self.names.clone();
        proof {
            assert(views(names@) =~= views(self.names@));
            let v = views(names@);
            assert forall|i: int, j: int| 0 <= i < j < v.len() implies crate::order::lex_le(#[trigger] v[i], #[trigger] v[j]) by {
                assert(lex_lt(v[i], v[j]));
            }
        }
        names
    }
}

} // verus!
