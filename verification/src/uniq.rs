use vstd::prelude::*;

use crate::order::{
    chars_eq, chars_le, distinct, lemma_lex_le_total, lemma_lex_lt_transitive, lex_lt, views,
};
use crate::text::{chars_of, decimal, pad_left, padded_decimal, push_char};

verus! {

/// Each sequence of `s` once, in the order in which it first occurs.
pub open spec fn first_seen(s: Seq<Seq<char>>) -> Seq<Seq<char>>
    decreases s.len(),
{
    if s.len() == 0 {
        s
    } else if first_seen(s.drop_last()).contains(s.last()) {
        first_seen(s.drop_last())
    } else {
        first_seen(s.drop_last()).push(s.last())
    }
}

/// How many times `x` occurs in `s`.
pub open spec fn occurrences(s: Seq<Seq<char>>, x: Seq<char>) -> nat
    decreases s.len(),
{
    if s.len() == 0 {
        0
    } else {
        occurrences(s.drop_last(), x) + if s.last() == x {
            1nat
        } else {
            0nat
        }
    }
}

/// A counted line: the count right-aligned in eight columns, a space, the line.
pub open spec fn count_line(n: nat, line: Seq<char>) -> Seq<char> {
    pad_left(decimal(n), 8) + seq![' '] + line
}

/// What de-duplicating `input` writes, one entry per output line: each
/// distinct line once in the order of its first occurrence, and with
/// `count`, each prefixed by the number of times it occurs.
pub open spec fn uniq_output(input: Seq<Seq<char>>, count: bool) -> Seq<Seq<char>> {
    if count {
        first_seen(input).map_values(|x: Seq<char>| count_line(occurrences(input, x), x))
    } else {
        first_seen(input)
    }
}

/// A sequence occurs in `first_seen(s)` exactly when it occurs in `s`, and
/// no sequence occurs there twice.
pub proof fn lemma_first_seen(s: Seq<Seq<char>>)
    ensures
        forall|x: Seq<char>| first_seen(s).contains(x) <==> s.contains(x),
        distinct(first_seen(s)),
    decreases s.len(),
{
    if s.len() > 0 {
        let p = s.drop_last();
        lemma_first_seen(p);
        let fp = first_seen(p);
        let fs = first_seen(s);
        assert forall|x: Seq<char>| fs.contains(x) <==> s.contains(x) by {
            if s.contains(x) {
                let k = choose|k: int| 0 <= k < s.len() && s[k] == x;
                if k < s.len() - 1 {
                    assert(p[k] == x);
                    assert(p.contains(x));
                    assert(fp.contains(x));
                    let m = choose|m: int| 0 <= m < fp.len() && fp[m] == x;
                    assert(fs[m] == x);
                } else if !fp.contains(s.last()) {
                    assert(fs[fs.len() - 1] == x);
                }
            }
            if fs.contains(x) {
                let k = choose|k: int| 0 <= k < fs.len() && fs[k] == x;
                if k < fp.len() {
                    assert(fp[k] == x);
                    assert(fp.contains(x));
                    assert(p.contains(x));
                    let m = choose|m: int| 0 <= m < p.len() && p[m] == x;
                    assert(s[m] == x);
                } else {
                    assert(s[s.len() - 1] == x);
                }
            }
        }
        assert forall|i: int, j: int| 0 <= i < j < fs.len() implies #[trigger] fs[i] != #[trigger] fs[j] by {
            if j == fp.len() {
                assert(fp.contains(fs[i]));
            } else {
                assert(fs[i] == fp[i] && fs[j] == fp[j]);
            }
        }
    }
}

/// `x` occurs at most as often as `s` is long, and not at all when `s` does
/// not contain it.
pub proof fn lemma_occurrences_bounds(s: Seq<Seq<char>>, x: Seq<char>)
    ensures
        occurrences(s, x) <= s.len(),
        !s.contains(x) ==> occurrences(s, x) == 0,
    decreases s.len(),
{
    if s.len() > 0 {
        lemma_occurrences_bounds(s.drop_last(), x);
        if !s.contains(x) {
            assert forall|k: int| 0 <= k < s.drop_last().len() implies s.drop_last()[k] != x by {
                assert(s[k] == s.drop_last()[k]);
            }
            assert(s[s.len() - 1] != x);
        }
    }
}

/// A line list without repeats is its own de-duplication, so
/// de-duplicating twice gives what de-duplicating once gave.
pub proof fn lemma_uniq_idempotent(input: Seq<Seq<char>>)
    ensures
        uniq_output(uniq_output(input, false), false) == uniq_output(input, false),
{
    lemma_first_seen(input);
    lemma_first_seen_of_distinct(first_seen(input));
}

/// `first_seen` keeps a sequence without repeats as it is.
proof fn lemma_first_seen_of_distinct(s: Seq<Seq<char>>)
    requires
        distinct(s),
    ensures
        first_seen(s) == s,
    decreases s.len(),
{
    if s.len() > 0 {
        let p = s.drop_last();
        assert(distinct(p));
        lemma_first_seen_of_distinct(p);
        if p.contains(s.last()) {
            let k = choose|k: int| 0 <= k < p.len() && p[k] == s.last();
            assert(s[k] == s[s.len() - 1]);
        }
        assert(s =~= p.push(s.last()));
    }
}

/// The sum of the occurrence counts of `lines` in `s`.
pub open spec fn total_occurrences(lines: Seq<Seq<char>>, s: Seq<Seq<char>>) -> nat
    decreases lines.len(),
{
    if lines.len() == 0 {
        0
    } else {
        total_occurrences(lines.drop_last(), s) + occurrences(s, lines.last())
    }
}

proof fn lemma_total_push(lines: Seq<Seq<char>>, s: Seq<Seq<char>>, l: Seq<char>)
    ensures
        total_occurrences(lines, s.push(l)) == total_occurrences(lines, s) + occurrences(lines, l),
    decreases lines.len(),
{
    if lines.len() > 0 {
        lemma_total_push(lines.drop_last(), s, l);
        assert(s.push(l).drop_last() =~= s);
    }
}

proof fn lemma_occurrences_distinct(s: Seq<Seq<char>>, x: Seq<char>)
    requires
        distinct(s),
        s.contains(x),
    ensures
        occurrences(s, x) == 1,
    decreases s.len(),
{
    let p = s.drop_last();
    assert(distinct(p));
    if s.last() == x {
        if p.contains(x) {
            let k = choose|k: int| 0 <= k < p.len() && p[k] == x;
            assert(s[k] == s[s.len() - 1]);
        }
        lemma_occurrences_bounds(p, x);
    } else {
        let k = choose|k: int| 0 <= k < s.len() && s[k] == x;
        assert(p[k] == x);
        lemma_occurrences_distinct(p, x);
    }
}

/// Counting accounts for every line: the counts reported for the distinct
/// lines add up to the number of lines read.
pub proof fn lemma_counts_add_up(input: Seq<Seq<char>>)
    ensures
        total_occurrences(first_seen(input), input) == input.len(),
    decreases input.len(),
{
    if input.len() > 0 {
        let p = input.drop_last();
        let l = input.last();
        lemma_counts_add_up(p);
        lemma_first_seen(p);
        assert(input =~= p.push(l));
        lemma_total_push(first_seen(p), p, l);
        if first_seen(p).contains(l) {
            lemma_occurrences_distinct(first_seen(p), l);
        } else {
            lemma_occurrences_bounds(first_seen(p), l);
            lemma_occurrences_bounds(p, l);
            assert(first_seen(p).push(l).drop_last() =~= first_seen(p));
        }
    }
}

/// `count_line` for one line.
pub fn format_count_line(occurrences: u64, line: &str) -> (s: String)
    ensures
        s@ == count_line(occurrences as nat, line@),
{
    let mut s = padded_decimal(occurrences, 8);
    push_char(&mut s, ' ');
    s.append(line);
    s
}

/// Counts the lines of a stream as they arrive: it says which lines to write
/// at once (the first occurrence of each, when not counting) and, at the
/// end, how often each distinct line occurred. The distinct lines are kept
/// in the order of their first occurrence, with an index that lists them in
/// `String` order, so that a line is looked up by binary search.
pub struct LineCounter {
    lines: Vec<String>,
    keys: Vec<Vec<char>>,
    order: Vec<usize>,
    counts: Vec<u64>,
    count: bool,
    seen: u64,
    history: Ghost<Seq<Seq<char>>>,
}

impl LineCounter {
    /// The lines observed so far, in order.
    pub closed spec fn history(&self) -> Seq<Seq<char>> {
        self.history@
    }

    /// Whether the counter reports counts at the end instead of writing
    /// first occurrences as they arrive.
    pub closed spec fn counting(&self) -> bool {
        self.count
    }

    /// The characters of the distinct line at position `k` of the index.
    spec fn indexed(&self, k: int) -> Seq<char> {
        self.keys@[self.order@[k] as int]@
    }

    /// The index lists the distinct line at position `i`.
    spec fn listed(&self, i: int) -> bool {
        exists|k: int| 0 <= k < self.order.len() && self.order@[k] == i
    }

    /// The distinct lines with their counts agree with the history, and the
    /// index lists each distinct line once, in ascending order.
    pub closed spec fn wf(&self) -> bool {
        &&& self.lines.len() == self.counts.len()
        &&& self.keys.len() == self.lines.len()
        &&& self.order.len() == self.lines.len()
        &&& views(self.lines@) == first_seen(self.history@)
        &&& forall|i: int|
            0 <= i < self.counts.len() ==> #[trigger] self.counts[i] as nat == occurrences(
                self.history@,
                self.lines[i]@,
            )
        &&& forall|i: int| 0 <= i < self.keys.len() ==> #[trigger] self.keys[i]@ == self.lines[i]@
        &&& forall|k: int| 0 <= k < self.order.len() ==> #[trigger] self.order[k] < self.lines.len()
        &&& forall|k1: int, k2: int|
            0 <= k1 < k2 < self.order.len() ==> lex_lt(
                #[trigger] self.indexed(k1),
                #[trigger] self.indexed(k2),
            )
        &&& forall|i: int| 0 <= i < self.lines.len() ==> #[trigger] self.listed(i)
        &&& self.seen as nat == self.history@.len()
    }

    /// A counter that has observed nothing.
    pub fn new(count: bool) -> (c: Self)
        ensures
            c.wf(),
            c.history() == Seq::<Seq<char>>::empty(),
            c.counting() == count,
    {
        let c = LineCounter {
            lines: Vec::new(),
            keys: Vec::new(),
            order: Vec::new(),
            counts: Vec::new(),
            count,
            seen: 0,
            history: Ghost(Seq::empty()),
        };
        assert(views(c.lines@) =~= first_seen(Seq::<Seq<char>>::empty()));
        c
    }

    /// How many lines have been observed.
    pub fn seen(&self) -> (n: u64)
        requires
            self.wf(),
        ensures
            n as nat == self.history().len(),
    {
        self.seen
    }

    /// Binary search of the index: `Ok(k)` when position `k` holds `key`,
    /// otherwise `Err(k)` with the position where `key` keeps the index in
    /// order.
    fn search(&self, key: &Vec<char>) -> (found: Result<usize, usize>)
        requires
            self.wf(),
        ensures
            match found {
                Ok(k) => k < self.order.len() && self.indexed(k as int) == key@,
                Err(p) => p <= self.order.len()
                    && (forall|k: int| 0 <= k < p ==> lex_lt(#[trigger] self.indexed(k), key@))
                    && (forall|k: int| p <= k < self.order.len() ==> lex_lt(key@, #[trigger] self.indexed(k))),
            },
    {
        let mut lo: usize = 0;
        let mut hi: usize = self.order.len();
        while lo < hi
            invariant
                self.wf(),
                lo <= hi <= self.order.len(),
                forall|k: int| 0 <= k < lo ==> lex_lt(#[trigger] self.indexed(k), key@),
                forall|k: int| hi <= k < self.order.len() ==> lex_lt(key@, #[trigger] self.indexed(k)),
            decreases hi - lo,
        {
            let mid = lo + (hi - lo) / 2;
            let at = self.order[mid];
            let stored = &self.keys[at];
            assert(stored@ == self.indexed(mid as int));
            if chars_eq(stored, key) {
                return Ok(mid);
            }
            if chars_le(stored, key) {
                proof {
                    assert forall|k: int| 0 <= k < mid + 1 implies lex_lt(#[trigger] self.indexed(k), key@) by {
                        if k < mid {
                            lemma_lex_lt_transitive(self.indexed(k), self.indexed(mid as int), key@);
                        }
                    }
                }
                lo = mid + 1;
            } else {
                proof {
                    lemma_lex_le_total(stored@, key@);
                    assert forall|k: int| mid <= k < self.order.len() implies lex_lt(key@, #[trigger] self.indexed(k)) by {
                        if k > mid {
                            lemma_lex_lt_transitive(key@, self.indexed(mid as int), self.indexed(k));
                        }
                    }
                }
                hi = mid;
            }
        }
        Err(lo)
    }

    /// Observes the next line; the answer says whether to write it now:
    /// exactly when not counting and the line was not observed before.
    pub fn observe(&mut self, line: &String) -> (write_now: bool)
        requires
            old(self).wf(),
            old(self).history().len() < u64::MAX,
        ensures
            final(self).wf(),
            final(self).history() == old(self).history().push(line@),
            final(self).counting() == old(self).counting(),
            write_now == (!old(self).counting() && !old(self).history().contains(line@)),
    {
        let ghost h = self.history@;
        let ghost l = line@;
        proof {
            lemma_first_seen(h);
            lemma_first_seen(h.push(l));
            assert(h.push(l).drop_last() =~= h);
        }
        let key = chars_of(line.as_str());
        match self.search(&key) {
            Ok(k) => {
                let j = self.order[k];
                proof {
                    assert(self.lines[j as int]@ == l);
                    assert(views(self.lines@)[j as int] == l);
                    assert(first_seen(h).contains(l));
                    lemma_occurrences_bounds(h, l);
                }
                let c = self.counts[j];
                self.counts.set(j, c + 1);
                self.history = Ghost(h.push(l));
                self.seen = self.seen + 1;
                proof {
                    assert forall|i: int| 0 <= i < self.counts.len() implies #[trigger] self.counts[i] as nat
                        == occurrences(self.history@, self.lines[i]@) by {
                        if i != j {
                            assert(views(self.lines@)[i] == self.lines[i]@);
                            assert(views(self.lines@)[j as int] == self.lines[j as int]@);
                        }
                    }
                    assert forall|i: int| 0 <= i < self.lines.len() implies #[trigger] self.listed(i) by {
                        assert(old(self).listed(i));
                        assert(self.order@ == old(self).order@);
                    }
                    assert forall|k1: int, k2: int| 0 <= k1 < k2 < self.order.len() implies lex_lt(
                        #[trigger] self.indexed(k1),
                        #[trigger] self.indexed(k2),
                    ) by {
                        assert(self.indexed(k1) == old(self).indexed(k1));
                        assert(self.indexed(k2) == old(self).indexed(k2));
                    }
                }
                false
            },
            Err(p) => {
                let ghost n = self.lines.len() as int;
                let ghost old_order = self.order@;
                let ghost old_keys = self.keys@;
                let ghost f = |k: int| old_keys[old_order[k] as int]@;
                let ghost was_listed = |i: int| exists|k: int| 0 <= k < n && old_order[k] == i;
                proof {
                    assert forall|k1: int, k2: int| 0 <= k1 < k2 < n implies lex_lt(#[trigger] f(k1), #[trigger] f(k2)) by {
                        assert(f(k1) == self.indexed(k1) && f(k2) == self.indexed(k2));
                    }
                    assert forall|k: int| 0 <= k < p implies lex_lt(#[trigger] f(k), l) by {
                        assert(f(k) == self.indexed(k));
                    }
                    assert forall|k: int| p <= k < n implies lex_lt(l, #[trigger] f(k)) by {
                        assert(f(k) == self.indexed(k));
                    }
                    assert forall|i: int| 0 <= i < n implies self.lines[i]@ != l by {
                        assert(self.listed(i));
                        let k = choose|k: int| 0 <= k < self.order.len() && #[trigger] self.order[k] == i;
                        assert(self.indexed(k) == self.keys[i]@);
                    }
                    assert forall|k: int| 0 <= k < first_seen(h).len() implies first_seen(h)[k] != l by {
                        assert(views(self.lines@)[k] == self.lines[k]@);
                    }
                    lemma_occurrences_bounds(h, l);
                    assert forall|i: int| 0 <= i < n implies #[trigger] was_listed(i) by {
                        assert(self.listed(i));
                        let k = choose|k: int| 0 <= k < self.order.len() && #[trigger] self.order[k] == i;
                        assert(old_order[k] == i);
                    }
                }
                let at = self.lines.len();
                self.lines.push(line.clone());
                self.keys.push(key);
                self.counts.push(1);
                self.order.insert(p, at);
                self.history = Ghost(h.push(l));
                self.seen = self.seen + 1;
                proof {
                    assert(views(self.lines@) =~= first_seen(h).push(l));
                    assert forall|i: int| 0 <= i < self.counts.len() implies #[trigger] self.counts[i] as nat
                        == occurrences(self.history@, self.lines[i]@) by {
                        if i < self.counts.len() - 1 {
                            assert(views(self.lines@)[i] == self.lines[i]@);
                        }
                    }
                    assert(self.order@ == old_order.insert(p as int, at));
                    assert forall|k: int| 0 <= k < self.order.len() implies #[trigger] self.order[k] < self.lines.len() by {
                        if k < p {
                            assert(self.order[k] == old_order[k]);
                        } else if k > p {
                            assert(self.order[k] == old_order[k - 1]);
                        }
                    }
                    assert forall|k: int| 0 <= k < self.order.len() implies #[trigger] self.indexed(k) == if k < p {
                        f(k)
                    } else if k == p {
                        l
                    } else {
                        f(k - 1)
                    } by {
                        if k < p {
                            assert(self.order[k] == old_order[k]);
                        } else if k > p {
                            assert(self.order[k] == old_order[k - 1]);
                        }
                    }
                    assert forall|k1: int, k2: int| 0 <= k1 < k2 < self.order.len() implies lex_lt(
                        #[trigger] self.indexed(k1),
                        #[trigger] self.indexed(k2),
                    ) by {
                        if k1 < p && k2 > p {
                            assert(f(k1) == self.indexed(k1) && f(k2 - 1) == self.indexed(k2));
                        } else if k1 > p {
                            assert(f(k1 - 1) == self.indexed(k1) && f(k2 - 1) == self.indexed(k2));
                        }
                    }
                    assert forall|i: int| 0 <= i < self.lines.len() implies #[trigger] self.listed(i) by {
                        if i < n {
                            assert(was_listed(i));
                            let k = choose|k: int| 0 <= k < n && #[trigger] old_order[k] == i;
                            if k < p {
                                assert(self.order[k] == i);
                            } else {
                                assert(self.order[k + 1] == i);
                            }
                        } else {
                            assert(self.order[p as int] == i);
                        }
                    }
                }
                !self.count
            },
        }
    }

    /// Each distinct line observed, in the order of its first occurrence,
    /// prefixed by how often it occurred (`count_line`).
    pub fn report(&self) -> (out: Vec<String>)
        requires
            self.wf(),
        ensures
            views(out@) == first_seen(self.history()).map_values(
                |x: Seq<char>| count_line(occurrences(self.history(), x), x),
            ),
    {
        let mut out: Vec<String> = Vec::new();
        let ghost target = first_seen(self.history@).map_values(
            |x: Seq<char>| count_line(occurrences(self.history@, x), x),
        );
        let mut i: usize = 0;
        while i < self.lines.len()
            invariant
                self.wf(),
                i <= self.lines.len(),
                target == first_seen(self.history@).map_values(
                    |x: Seq<char>| count_line(occurrences(self.history@, x), x),
                ),
                views(out@) == target.take(i as int),
            decreases self.lines.len() - i,
        {
            let s = format_count_line(self.counts[i], self.lines[i].as_str());
            proof {
                assert(views(self.lines@)[i as int] == self.lines[i as int]@);
                assert(self.counts[i as int] as nat == occurrences(self.history@, self.lines[i as int]@));
            }
            assert(target.take(i + 1) =~= target.take(i as int).push(target[i as int]));
            assert(views(out@.push(s)) =~= views(out@).push(s@));
            out.push(s);
            i = i + 1;
        }
        assert(target.take(i as int) =~= target);
        out
    }
}

/// De-duplicates lines without sorting them first: each distinct line once,
/// in the order of its first occurrence; with `count`, each distinct line
/// prefixed by the number of its occurrences (`uniq_output`).
pub fn uniq_any_order(lines: &Vec<String>, count: bool) -> (out: Vec<String>)
    ensures
        views(out@) == uniq_output(views(lines@), count),
{
    let ghost input = views(lines@);
    let mut counter = LineCounter::new(count);
    let mut out: Vec<String> = Vec::new();
    let mut i: usize = 0;
    while i < lines.len()
        invariant
            i <= lines.len(),
            input == views(lines@),
            counter.wf(),
            counter.counting() == count,
            counter.history() == input.take(i as int),
            views(out@) == if count {
                Seq::<Seq<char>>::empty()
            } else {
                first_seen(input.take(i as int))
            },
        decreases lines.len() - i,
    {
        proof {
            assert(input[i as int] == lines[i as int]@);
            assert(input.take(i + 1) =~= input.take(i as int).push(input[i as int]));
            assert(input.take(i + 1).drop_last() =~= input.take(i as int));
            lemma_first_seen(input.take(i as int));
        }
        let write_now = counter.observe(&lines[i]);
        if write_now {
            out.push(lines[i].clone());
        }
        i = i + 1;
        assert(views(out@) =~= if count {
            Seq::<Seq<char>>::empty()
        } else {
            first_seen(input.take(i as int))
        });
    }
    assert(input.take(i as int) =~= input);
    if count {
        counter.report()
    } else {
        out
    }
}

} // verus!
