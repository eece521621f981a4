use vstd::prelude::*;

use crate::order::views;
use crate::path_order::{
    lemma_parts_le_total, lemma_parts_lt_transitive, path_eq_exec, path_le_exec, path_parts,
    path_sorted, parts_lt, PathPart,
};

verus! {

/// The components of each path.
pub open spec fn keys(paths: Seq<String>) -> Seq<Seq<PathPart>> {
    paths.map_values(|s: String| path_parts(s@))
}

/// Each component sequence of `paths` mapped to the spelling of a path in
/// `paths` that has it (the only one, when no two paths share components).
pub open spec fn spellings(paths: Seq<String>) -> Map<Seq<PathPart>, Seq<char>> {
    Map::new(
        |k: Seq<PathPart>| keys(paths).contains(k),
        |k: Seq<PathPart>|
            paths[choose|i: int| 0 <= i < paths.len() && path_parts(#[trigger] paths[i]@) == k]@,
    )
}

/// With no two paths sharing components, each path's components map to
/// its own spelling.
proof fn lemma_spelling_at(paths: Seq<String>, j: int)
    requires
        keys(paths).no_duplicates(),
        0 <= j < paths.len(),
    ensures
        spellings(paths).dom().contains(path_parts(paths[j]@)),
        spellings(paths)[path_parts(paths[j]@)] == paths[j]@,
{
    let k = path_parts(paths[j]@);
    assert(keys(paths)[j] == k);
    let i = choose|i: int| 0 <= i < paths.len() && path_parts(#[trigger] paths[i]@) == k;
    assert(keys(paths)[i] == k);
}

/// Component lists in strictly ascending path order.
pub open spec fn ascending(ks: Seq<Seq<PathPart>>) -> bool {
    forall|i: int, j: int| 0 <= i < j < ks.len() ==> parts_lt(#[trigger] ks[i], #[trigger] ks[j])
}

/// Strictly ascending component lists have no repeats.
proof fn lemma_ascending_no_duplicates(ks: Seq<Seq<PathPart>>)
    requires
        ascending(ks),
    ensures
        ks.no_duplicates(),
{
    assert forall|i: int, j: int| 0 <= i < ks.len() && 0 <= j < ks.len() && i != j implies ks[i] != ks[j] by {
        if i < j {
            assert(parts_lt(ks[i], ks[j]));
        } else {
            assert(parts_lt(ks[j], ks[i]));
        }
    }
}

/// A finite set of paths, where two paths are the same when their
/// components are (as for `PathBuf`). Its view maps each member's
/// components to the spelling that member was first added with. The
/// members are kept in `Path`'s order, so that a path is looked up by binary
/// search and the members are handed out in that order.
pub struct PathSet {
    paths: Vec<String>,
}

impl View for PathSet {
    type V = Map<Seq<PathPart>, Seq<char>>;

    closed spec fn view(&self) -> Map<Seq<PathPart>, Seq<char>> {
        spellings(self.paths@)
    }
}

impl PathSet {
    #[verifier::type_invariant]
    spec fn in_order(&self) -> bool {
        ascending(keys(self.paths@))
    }

    proof fn lemma_len(&self)
        requires
            keys(self.paths@).no_duplicates(),
        ensures
            self@.dom().finite(),
            self@.dom().len() == self.paths.len(),
    {
        assert(self@.dom() =~= keys(self.paths@).to_set());
        keys(self.paths@).unique_seq_to_set();
        vstd::seq_lib::seq_to_set_is_finite(keys(self.paths@));
    }

    /// The empty set.
    pub fn new() -> (s: Self)
        ensures
            s@ == Map::<Seq<PathPart>, Seq<char>>::empty(),
    {
        let s = PathSet { paths: Vec::new() };
        assert(s@ =~= Map::<Seq<PathPart>, Seq<char>>::empty());
        s
    }

    /// How many paths the set holds.
    pub fn len(&self) -> (n: usize)
        ensures
            n == self@.dom().len(),
            self@.dom().finite(),
    {
        proof {
            use_type_invariant(self);
            lemma_ascending_no_duplicates(keys(self.paths@));
            self.lemma_len();
        }
        self.paths.len()
    }

    /// Whether the set holds no path.
    pub fn is_empty(&self) -> (b: bool)
        ensures
            b == (self@ == Map::<Seq<PathPart>, Seq<char>>::empty()),
    {
        proof {
            if self.paths.len() > 0 {
                assert(keys(self.paths@)[0] == path_parts(self.paths@[0]@));
                assert(self@.dom().contains(keys(self.paths@)[0]));
                assert(!Map::<Seq<PathPart>, Seq<char>>::empty().dom().contains(keys(self.paths@)[0]));
            } else {
                assert(self@ =~= Map::<Seq<PathPart>, Seq<char>>::empty());
            }
        }
        self.paths.len() == 0
    }

    /// Binary search for the components of `path`: `Ok(i)` where a member
    /// with them is stored, otherwise `Err(i)` with the position where `path`
    /// keeps the members in order.
    fn find(&self, path: &str) -> (found: Result<usize, usize>)
        ensures
            match found {
                Ok(i) => i < self.paths.len() && path_parts(self.paths[i as int]@) == path_parts(path@),
                Err(p) => p <= self.paths.len() && !self@.dom().contains(path_parts(path@))
                    && (forall|k: int| 0 <= k < p ==> parts_lt(#[trigger] keys(self.paths@)[k], path_parts(path@)))
                    && (forall|k: int| p <= k < self.paths.len() ==> parts_lt(path_parts(path@), #[trigger] keys(self.paths@)[k])),
            },
    {
        proof {
            use_type_invariant(self);
        }
        let ghost ks = keys(self.paths@);
        let ghost key = path_parts(path@);
        let mut lo: usize = 0;
        let mut hi: usize = self.paths.len();
        while lo < hi
            invariant
                ks == keys(self.paths@),
                key == path_parts(path@),
                ascending(ks),
                lo <= hi <= self.paths.len(),
                forall|k: int| 0 <= k < lo ==> parts_lt(#[trigger] ks[k], key),
                forall|k: int| hi <= k < self.paths.len() ==> parts_lt(key, #[trigger] ks[k]),
            decreases hi - lo,
        {
            let mid = lo + (hi - lo) / 2;
            assert(ks[mid as int] == path_parts(self.paths@[mid as int]@));
            if path_eq_exec(self.paths[mid].as_str(), path) {
                return Ok(mid);
            }
            if path_le_exec(self.paths[mid].as_str(), path) {
                proof {
                    assert forall|k: int| 0 <= k < mid + 1 implies parts_lt(#[trigger] ks[k], key) by {
                        if k < mid {
                            lemma_parts_lt_transitive(ks[k], ks[mid as int], key);
                        }
                    }
                }
                lo = mid + 1;
            } else {
                proof {
                    lemma_parts_le_total(ks[mid as int], key);
                    assert forall|k: int| mid <= k < self.paths.len() implies parts_lt(key, #[trigger] ks[k]) by {
                        if k > mid {
                            lemma_parts_lt_transitive(key, ks[mid as int], ks[k]);
                        }
                    }
                }
                hi = mid;
            }
        }
        proof {
            if self@.dom().contains(key) {
                let k = choose|k: int| 0 <= k < ks.len() && ks[k] == key;
                if k < lo {
                    assert(parts_lt(ks[k], key));
                } else {
                    assert(parts_lt(key, ks[k]));
                }
            }
        }
        Err(lo)
    }

    /// Whether a path with the components of `path` is a member.
    pub fn contains(&self, path: &str) -> (b: bool)
        ensures
            b == self@.dom().contains(path_parts(path@)),
    {
        match self.find(path) {
            Ok(i) => {
                assert(keys(self.paths@)[i as int] == path_parts(path@));
                true
            },
            Err(_) => false,
        }
    }

    /// Adds `path`, unless a path with its components is already a member;
    /// a member keeps its first spelling.
    pub fn insert(&mut self, path: String)
        ensures
            final(self)@ == if old(self)@.dom().contains(path_parts(path@)) {
                old(self)@
            } else {
                old(self)@.insert(path_parts(path@), path@)
            },
    {
        proof {
            use_type_invariant(&*self);
            lemma_ascending_no_duplicates(keys(self.paths@));
        }
        match self.find(path.as_str()) {
            Ok(i) => {
                assert(keys(self.paths@)[i as int] == path_parts(path@));
            },
            Err(p) => {
                let ghost old_paths = self.paths@;
                let ghost before = keys(self.paths@);
                let ghost key = path_parts(path@);
                let ghost spelled = path@;
                let mut paths = Vec::new();
                std::mem::swap(&mut paths, &mut self.paths);
                paths.insert(p, path);
                proof {
                    let after = keys(paths@);
                    assert(paths@ == old_paths.insert(p as int, paths@[p as int]));
                    assert(after =~= before.insert(p as int, key));
                    assert forall|i: int, j: int| 0 <= i < j < after.len() implies parts_lt(
                        #[trigger] after[i],
                        #[trigger] after[j],
                    ) by {
                        if i < p && j > p {
                            assert(after[j] == before[j - 1]);
                        } else if i > p {
                            assert(after[i] == before[i - 1] && after[j] == before[j - 1]);
                        } else if i == p {
                            assert(after[j] == before[j - 1]);
                        }
                    }
                    lemma_ascending_no_duplicates(after);
                    let m = spellings(paths@);
                    let o = spellings(old_paths);
                    assert forall|k: Seq<PathPart>| m.dom().contains(k) <==> o.insert(key, spelled).dom().contains(k) by {
                        if after.contains(k) {
                            let j = choose|j: int| 0 <= j < after.len() && after[j] == k;
                            if j < p {
                                assert(before[j] == k);
                            } else if j > p {
                                assert(before[j - 1] == k);
                            }
                        }
                        if before.contains(k) {
                            let j = choose|j: int| 0 <= j < before.len() && before[j] == k;
                            if j < p {
                                assert(after[j] == k);
                            } else {
                                assert(after[j + 1] == k);
                            }
                        }
                        if k == key {
                            assert(after[p as int] == k);
                        }
                    }
                    assert forall|k: Seq<PathPart>| #[trigger] m.dom().contains(k) implies m[k] == o.insert(key, spelled)[k] by {
                        let j = choose|j: int| 0 <= j < after.len() && after[j] == k;
                        lemma_spelling_at(paths@, j);
                        if j < p {
                            assert(paths@[j] == old_paths[j]);
                            lemma_spelling_at(old_paths, j);
                        } else if j > p {
                            assert(paths@[j] == old_paths[j - 1]);
                            lemma_spelling_at(old_paths, j - 1);
                        }
                    }
                    assert(m =~= o.insert(key, spelled));
                }
                self.paths = paths;
            },
        }
    }

    /// Removes the member with the components of `path`, if there is one.
    pub fn remove(&mut self, path: &str)
        ensures
            final(self)@ == old(self)@.remove(path_parts(path@)),
    {
        proof {
            use_type_invariant(&*self);
            lemma_ascending_no_duplicates(keys(self.paths@));
        }
        match self.find(path) {
            Ok(i) => {
                let ghost old_paths = self.paths@;
                let ghost before = keys(self.paths@);
                let ghost key = path_parts(path@);
                let mut paths = Vec::new();
                std::mem::swap(&mut paths, &mut self.paths);
                paths.remove(i);
                proof {
                    let after = keys(paths@);
                    assert(before[i as int] == key);
                    assert(after =~= before.remove(i as int));
                    assert forall|a: int, b: int| 0 <= a < b < after.len() implies parts_lt(
                        #[trigger] after[a],
                        #[trigger] after[b],
                    ) by {
                        let a1 = if a < i { a } else { a + 1 };
                        let b1 = if b < i { b } else { b + 1 };
                        assert(after[a] == before[a1] && after[b] == before[b1]);
                    }
                    lemma_ascending_no_duplicates(after);
                    let m = spellings(paths@);
                    let o = spellings(old_paths);
                    assert forall|k: Seq<PathPart>| m.dom().contains(k) <==> o.remove(key).dom().contains(k) by {
                        if after.contains(k) {
                            let j = choose|j: int| 0 <= j < after.len() && after[j] == k;
                            let j1 = if j < i { j } else { j + 1 };
                            assert(before[j1] == k);
                            assert(before[j1] != before[i as int]);
                        }
                        if before.contains(k) && k != key {
                            let j = choose|j: int| 0 <= j < before.len() && before[j] == k;
                            assert(j != i);
                            if j < i {
                                assert(after[j] == k);
                            } else {
                                assert(after[j - 1] == k);
                            }
                        }
                    }
                    assert forall|k: Seq<PathPart>| #[trigger] m.dom().contains(k) implies m[k] == o.remove(key)[k] by {
                        let j = choose|j: int| 0 <= j < after.len() && after[j] == k;
                        let j1 = if j < i { j } else { j + 1 };
                        lemma_spelling_at(paths@, j);
                        assert(paths@[j] == old_paths[j1]);
                        lemma_spelling_at(old_paths, j1);
                    }
                    assert(m =~= o.remove(key));
                }
                self.paths = paths;
            },
            Err(_) => {
                assert(self@.remove(path_parts(path@)) =~= self@);
            },
        }
    }

    /// Removes every path.
    pub fn clear(&mut self)
        ensures
            final(self)@ == Map::<Seq<PathPart>, Seq<char>>::empty(),
    {
        self.paths = Vec::new();
        assert(self@ =~= Map::<Seq<PathPart>, Seq<char>>::empty());
    }

    /// The members, each spelled as it was first added, in ascending order of
    /// `Path`'s `Ord`.
    pub fn to_sorted_vec(&self) -> (paths: Vec<String>)
        ensures
            path_sorted(views(paths@)),
            keys(paths@).no_duplicates(),
            keys(paths@).to_set() == self@.dom(),
            forall|i: int| 0 <= i < paths.len() ==> self@[path_parts(#[trigger] paths@[i]@)] == paths@[i]@,
            paths.len() == self@.dom().len(),
    {
        proof {
            use_type_invariant(self);
            lemma_ascending_no_duplicates(keys(self.paths@));
            self.lemma_len();
        }
        let paths = self.paths.clone();
        proof {
            assert(paths@ =~= self.paths@);
            let ks = keys(paths@);
            let v = views(paths@);
            assert forall|i: int, j: int| 0 <= i < j < v.len() implies crate::path_order::path_le(#[trigger] v[i], #[trigger] v[j]) by {
                assert(parts_lt(ks[i], ks[j]));
            }
            assert(self@.dom() =~= ks.to_set());
            assert forall|i: int| 0 <= i < paths.len() implies self@[path_parts(#[trigger] paths@[i]@)]
                == paths@[i]@ by {
                lemma_spelling_at(self.paths@, i);
            }
        }
        paths
    }
}

} // verus!
