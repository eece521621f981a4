use vstd::prelude::*;

use crate::order::{
    lemma_lex_le_antisymmetric, sort_strings, sorted, distinct, views,
};
use crate::text::{char_is_whitespace, chars_of, decimal, is_whitespace, string_from_chars};

verus! {

/// `s` without its leading whitespace.
pub open spec fn trim_start(s: Seq<char>) -> Seq<char>
    decreases s.len(),
{
    if s.len() > 0 && is_whitespace(s[0]) {
        trim_start(s.drop_first())
    } else {
        s
    }
}

/// `s` without its trailing whitespace.
pub open spec fn trim_end(s: Seq<char>) -> Seq<char>
    decreases s.len(),
{
    if s.len() > 0 && is_whitespace(s.last()) {
        trim_end(s.drop_last())
    } else {
        s
    }
}

/// `s` without leading and trailing whitespace.
pub open spec fn trim(s: Seq<char>) -> Seq<char> {
    trim_start(trim_end(s))
}

/// A line with its leading and trailing whitespace removed.
pub fn trim_line(line: &str) -> (trimmed: String)
    ensures
        trimmed@ == trim(line@),
{
    let chars = chars_of(line);
    let ghost s = chars@;
    let mut end = chars.len();
    assert(s.subrange(0, end as int) =~= s);
    while end > 0 && char_is_whitespace(chars[end - 1])
        invariant
            end <= chars.len(),
            s == chars@,
            trim_end(s) == trim_end(s.subrange(0, end as int)),
        decreases end,
    {
        assert(s.subrange(0, end as int).drop_last() =~= s.subrange(0, end - 1));
        end = end - 1;
    }
    assert(trim_end(s) == s.subrange(0, end as int));
    let mut start: usize = 0;
    while start < end && char_is_whitespace(chars[start])
        invariant
            start <= end <= chars.len(),
            s == chars@,
            trim_end(s) == s.subrange(0, end as int),
            trim(s) == trim_start(s.subrange(start as int, end as int)),
        decreases end - start,
    {
        assert(s.subrange(start as int, end as int).drop_first() =~= s.subrange(
            start + 1,
            end as int,
        ));
        start = start + 1;
    }
    assert(trim(s) == s.subrange(start as int, end as int));
    string_from_chars(&chars, start, end)
}

/// Consecutive repeats of a sequence collapsed into one (`Vec::dedup`).
pub open spec fn dedup_adjacent(s: Seq<Seq<char>>) -> Seq<Seq<char>>
    decreases s.len(),
{
    if s.len() == 0 {
        s
    } else if s.len() >= 2 && s[s.len() - 2] == s.last() {
        dedup_adjacent(s.drop_last())
    } else {
        dedup_adjacent(s.drop_last()).push(s.last())
    }
}

/// The lines with every run of equal neighbours kept once.
pub fn dedup_lines(lines: &Vec<String>) -> (kept: Vec<String>)
    ensures
        views(kept@) == dedup_adjacent(views(lines@)),
{
    let mut kept: Vec<String> = Vec::new();
    let ghost all = views(lines@);
    let mut i: usize = 0;
    while i < lines.len()
        invariant
            i <= lines.len(),
            all == views(lines@),
            views(kept@) == dedup_adjacent(all.take(i as int)),
        decreases lines.len() - i,
    {
        let ghost before = all.take(i as int);
        assert(all.take(i + 1).drop_last() =~= before);
        if i == 0 || !(lines[i] == lines[i - 1]) {
            kept.push(lines[i].clone());
            assert(views(kept@) =~= dedup_adjacent(all.take(i + 1)));
        } else {
            assert(views(kept@) =~= dedup_adjacent(all.take(i + 1)));
        }
        i = i + 1;
    }
    assert(all.take(lines.len() as int) =~= all);
    kept
}

/// On a sorted sequence, `dedup_adjacent` keeps the order, leaves no
/// repeats and keeps every sequence that occurs.
proof fn lemma_dedup_sorted(s: Seq<Seq<char>>)
    requires
        sorted(s),
    ensures
        sorted(dedup_adjacent(s)),
        distinct(dedup_adjacent(s)),
        forall|x: Seq<char>| dedup_adjacent(s).contains(x) <==> s.contains(x),
    decreases s.len(),
{
    if s.len() > 0 {
        let p = s.drop_last();
        assert(sorted(p));
        lemma_dedup_sorted(p);
        let d = dedup_adjacent(p);
        if s.len() >= 2 && s[s.len() - 2] == s.last() {
            assert forall|x: Seq<char>| d.contains(x) <==> s.contains(x) by {
                if s.contains(x) {
                    let k = choose|k: int| 0 <= k < s.len() && s[k] == x;
                    if k == s.len() - 1 {
                        assert(p[s.len() - 2] == x);
                    } else {
                        assert(p[k] == x);
                    }
                }
                if p.contains(x) {
                    let k = choose|k: int| 0 <= k < p.len() && p[k] == x;
                    assert(s[k] == x);
                }
            }
        } else {
            let last = s.last();
            let r = d.push(last);
            assert forall|x: Seq<char>| d.contains(x) implies lex_le_last(s, x) by {
                {
                    assert(p.contains(x));
                    let k = choose|k: int| 0 <= k < p.len() && p[k] == x;
                    assert(s[k] == x);
                }
            }
            assert forall|i: int, j: int| 0 <= i < j < r.len() implies crate::order::lex_le(
                #[trigger] r[i],
                #[trigger] r[j],
            ) by {
                if j == r.len() - 1 {
                    assert(d.contains(r[i]));
                } else {
                    assert(r[i] == d[i] && r[j] == d[j]);
                }
            }
            if d.contains(last) {
                assert(p.contains(last));
                let k = choose|k: int| 0 <= k < p.len() && p[k] == last;
                let m = s.len() - 2;
                assert(s[k] == last);
                assert(crate::order::lex_le(s[k], s[m]) || k == m);
                assert(crate::order::lex_le(s[m], s[s.len() - 1]));
                if k != m {
                    lemma_lex_le_antisymmetric(s[m], last);
                }
                assert(false);
            }
            assert forall|i: int, j: int| 0 <= i < j < r.len() implies #[trigger] r[i]
                != #[trigger] r[j] by {
                if j == r.len() - 1 {
                    assert(d.contains(r[i]));
                } else {
                    assert(r[i] == d[i] && r[j] == d[j]);
                }
            }
            assert forall|x: Seq<char>| r.contains(x) <==> s.contains(x) by {
                if r.contains(x) {
                    let k = choose|k: int| 0 <= k < r.len() && r[k] == x;
                    if k == r.len() - 1 {
                        assert(s[s.len() - 1] == x);
                    } else {
                        assert(d[k] == x);
                        assert(p.contains(x));
                        let m = choose|m: int| 0 <= m < p.len() && p[m] == x;
                        assert(s[m] == x);
                    }
                }
                if s.contains(x) {
                    let k = choose|k: int| 0 <= k < s.len() && s[k] == x;
                    if k == s.len() - 1 {
                        assert(r[r.len() - 1] == x);
                    } else {
                        assert(p[k] == x);
                        assert(p.contains(x));
                        assert(d.contains(x));
                        let m = choose|m: int| 0 <= m < d.len() && d[m] == x;
                        assert(r[m] == x);
                    }
                }
            }
        }
    }
}

/// `x` comes no later than the last sequence of `s`.
spec fn lex_le_last(s: Seq<Seq<char>>, x: Seq<char>) -> bool {
    crate::order::lex_le(x, s.last())
}

/// What `trim_end` leaves is a prefix of `s` that is empty or ends in a
/// non-whitespace character.
proof fn lemma_trim_end_shape(s: Seq<char>)
    ensures
        trim_end(s) =~= s.take(trim_end(s).len() as int),
        trim_end(s).len() <= s.len(),
        trim_end(s).len() == 0 || !is_whitespace(trim_end(s).last()),
    decreases s.len(),
{
    if s.len() > 0 && is_whitespace(s.last()) {
        lemma_trim_end_shape(s.drop_last());
        assert(s.drop_last().take(trim_end(s).len() as int) =~= s.take(trim_end(s).len() as int));
    }
}

/// What `trim_start` leaves is a suffix of `s` that is empty or starts with
/// a non-whitespace character.
proof fn lemma_trim_start_shape(s: Seq<char>)
    ensures
        trim_start(s) =~= s.skip(s.len() - trim_start(s).len()),
        trim_start(s).len() <= s.len(),
        trim_start(s).len() == 0 || !is_whitespace(trim_start(s)[0]),
    decreases s.len(),
{
    if s.len() > 0 && is_whitespace(s[0]) {
        lemma_trim_start_shape(s.drop_first());
        assert(s.drop_first().skip(s.drop_first().len() - trim_start(s).len()) =~= s.skip(
            s.len() - trim_start(s).len(),
        ));
    }
}

/// Trimming a trimmed line changes nothing.
pub proof fn lemma_trim_idempotent(s: Seq<char>)
    ensures
        trim(trim(s)) == trim(s),
{
    let y = trim_end(s);
    lemma_trim_end_shape(s);
    let z = trim_start(y);
    lemma_trim_start_shape(y);
    if z.len() > 0 {
        assert(z.last() == y.last());
    }
    assert(trim_end(z) == z);
    assert(trim_start(z) == z);
}

/// Two sorted arrangements of the same lines are equal: the sorted order of
/// a file is unique, so sorting a sorted file leaves it as it is.
pub proof fn lemma_sorted_arrangement_unique(a: Seq<Seq<char>>, b: Seq<Seq<char>>)
    requires
        sorted(a),
        sorted(b),
        a.to_multiset() == b.to_multiset(),
    ensures
        a == b,
    decreases a.len(),
{
    vstd::seq_lib::to_multiset_len(a);
    vstd::seq_lib::to_multiset_len(b);
    if a.len() > 0 {
        vstd::seq_lib::to_multiset_contains(a, a[0]);
        vstd::seq_lib::to_multiset_contains(b, a[0]);
        vstd::seq_lib::to_multiset_contains(a, b[0]);
        vstd::seq_lib::to_multiset_contains(b, b[0]);
        let i = choose|i: int| 0 <= i < b.len() && b[i] == a[0];
        let j = choose|j: int| 0 <= j < a.len() && a[j] == b[0];
        if i > 0 {
            assert(crate::order::lex_le(b[0], b[i]));
        } else {
            crate::order::lemma_lex_le_reflexive(b[0]);
        }
        if j > 0 {
            assert(crate::order::lex_le(a[0], a[j]));
        } else {
            crate::order::lemma_lex_le_reflexive(a[0]);
        }
        lemma_lex_le_antisymmetric(a[0], b[0]);
        vstd::seq_lib::to_multiset_remove(a, 0);
        vstd::seq_lib::to_multiset_remove(b, 0);
        assert(a.remove(0) =~= a.drop_first());
        assert(b.remove(0) =~= b.drop_first());
        assert(sorted(a.drop_first()));
        assert(sorted(b.drop_first()));
        lemma_sorted_arrangement_unique(a.drop_first(), b.drop_first());
        assert(a =~= seq![a[0]] + a.drop_first());
        assert(b =~= seq![b[0]] + b.drop_first());
    } else {
        assert(a =~= b);
    }
}

/// The lines that sorting a file puts back: each line trimmed of leading and
/// trailing whitespace when `trim_whitespace` is set, all of them in
/// ascending order, and every repeated line kept once when `uniq` is set.
pub fn sort_lines(lines: Vec<String>, uniq: bool, trim_whitespace: bool) -> (result: Vec<String>)
    ensures
        sorted(views(result@)),
        !uniq ==> views(result@).to_multiset() == source_lines(views(lines@), trim_whitespace).to_multiset(),
        !uniq ==> result.len() == lines.len(),
        uniq ==> distinct(views(result@)),
        uniq ==> forall|x: Seq<char>|
            views(result@).contains(x) <==> source_lines(views(lines@), trim_whitespace).contains(x),
{
    let ghost n = lines.len();
    let mut lines = lines;
    if trim_whitespace {
        let mut trimmed: Vec<String> = Vec::new();
        let mut i: usize = 0;
        while i < lines.len()
            invariant
                i <= lines.len(),
                views(trimmed@) == views(lines@).take(i as int).map_values(|l: Seq<char>| trim(l)),
            decreases lines.len() - i,
        {
            let t = trim_line(lines[i].as_str());
            let ghost all = views(lines@);
            assert(all[i as int] == lines[i as int]@);
            assert(all.take(i + 1) =~= all.take(i as int).push(all[i as int]));
            assert(views(trimmed@.push(t)) =~= views(trimmed@).push(t@));
            assert(all.take(i + 1).map_values(|l: Seq<char>| trim(l)) =~= all.take(
                i as int,
            ).map_values(|l: Seq<char>| trim(l)).push(trim(all[i as int])));
            trimmed.push(t);
            i = i + 1;
        }
        assert(views(lines@).take(lines.len() as int) =~= views(lines@));
        lines = trimmed;
    }
    assert(lines.len() == n) by {
        assert(views(lines@).len() == lines.len());
    }
    let ghost source = views(lines@);
    sort_strings(&mut lines);
    if uniq {
        let kept = dedup_lines(&lines);
        proof {
            lemma_dedup_sorted(views(lines@));
            assert forall|x: Seq<char>| views(lines@).contains(x) <==> source.contains(x) by {
                vstd::seq_lib::to_multiset_contains(views(lines@), x);
                vstd::seq_lib::to_multiset_contains(source, x);
            }
        }
        kept
    } else {
        lines
    }
}

/// The lines that are sorted: trimmed when `trim_whitespace` is set.
pub open spec fn source_lines(lines: Seq<Seq<char>>, trim_whitespace: bool) -> Seq<Seq<char>> {
    if trim_whitespace {
        lines.map_values(|l: Seq<char>| trim(l))
    } else {
        lines
    }
}

/// Sorting loses no line: what is sorted has one entry per input line, the
/// line itself or, with trimming, the line without its surrounding
/// whitespace (a blank line becomes an empty one and stays).
pub proof fn lemma_source_lines_keep_every_line(lines: Seq<Seq<char>>, trim_whitespace: bool)
    ensures
        source_lines(lines, trim_whitespace).len() == lines.len(),
        forall|i: int|
            0 <= i < lines.len() ==> #[trigger] source_lines(lines, trim_whitespace)[i] == if trim_whitespace {
                trim(lines[i])
            } else {
                lines[i]
            },
        trim_whitespace ==> forall|i: int|
            0 <= i < lines.len() ==> source_lines(lines, true).contains(trim(#[trigger] lines[i])),
{
    if trim_whitespace {
        assert forall|i: int| 0 <= i < lines.len() implies source_lines(lines, true).contains(trim(#[trigger] lines[i])) by {
            assert(source_lines(lines, true)[i] == trim(lines[i]));
        }
    }
}

/// Why a file is not sorted.
pub enum SortError {
    /// The file holds more bytes than may be sorted in memory.
    TooLarge { limit: u64, actual: u64 },
}

/// The message that reports a file too large to sort in memory.
pub open spec fn too_large_message(limit: u64, actual: u64) -> Seq<char> {
    "file too large to sort in memory: expected at most "@ + decimal(limit as nat)
        + " bytes, got "@ + decimal(actual as nat) + " bytes"@
}

impl SortError {
    /// The message that describes the error.
    pub fn message(&self) -> (m: String)
        ensures
            match self {
                SortError::TooLarge { limit, actual } => m@ == too_large_message(*limit, *actual),
            },
    {
        match self {
            SortError::TooLarge { limit, actual } => {
                let mut m = String::new();
                m.append("file too large to sort in memory: expected at most ");
                let l = crate::text::padded_decimal(*limit, 0);
                m.append(l.as_str());
                m.append(" bytes, got ");
                let a = crate::text::padded_decimal(*actual, 0);
                m.append(a.as_str());
                m.append(" bytes");
                m
            },
        }
    }
}

/// A file of `file_len` bytes may be sorted in memory when it holds at most
/// `size_limit` bytes.
pub fn check_file_size(file_len: u64, size_limit: u64) -> (r: Result<(), SortError>)
    ensures
        r is Ok <==> file_len <= size_limit,
        r matches Err(SortError::TooLarge { limit, actual }) ==> limit == size_limit && actual == file_len,
{
    if file_len > size_limit {
        Err(SortError::TooLarge { limit: size_limit, actual: file_len })
    } else {
        Ok(())
    }
}

} // verus!
