use vstd::prelude::*;

verus! {

/// Lexicographic order on character sequences, comparing code points. This
/// is the order of `String`'s `Ord`, which compares UTF-8 bytes: UTF-8 keeps
/// the order of code points, and a prefix comes first.
pub open spec fn lex_le(a: Seq<char>, b: Seq<char>) -> bool
    decreases a.len(),
{
    if a.len() == 0 {
        true
    } else if b.len() == 0 {
        false
    } else if a[0] != b[0] {
        (a[0] as int) < (b[0] as int)
    } else {
        lex_le(a.drop_first(), b.drop_first())
    }
}

/// The characters of each string.
pub open spec fn views(v: Seq<String>) -> Seq<Seq<char>> {
    v.map_values(|s: String| s@)
}

/// Every earlier sequence comes no later than every later one.
pub open spec fn sorted(s: Seq<Seq<char>>) -> bool {
    forall|i: int, j: int| 0 <= i < j < s.len() ==> lex_le(#[trigger] s[i], #[trigger] s[j])
}

/// No sequence occurs twice.
pub open spec fn distinct(s: Seq<Seq<char>>) -> bool {
    forall|i: int, j: int| 0 <= i < j < s.len() ==> #[trigger] s[i] != #[trigger] s[j]
}

/// Every sequence comes no later than itself.
pub proof fn lemma_lex_le_reflexive(a: Seq<char>)
    ensures
        lex_le(a, a),
    decreases a.len(),
{
    if a.len() > 0 {
        lemma_lex_le_reflexive(a.drop_first());
    }
}

/// Two sequences that each come no later than the other are equal.
pub proof fn lemma_lex_le_antisymmetric(a: Seq<char>, b: Seq<char>)
    requires
        lex_le(a, b),
        lex_le(b, a),
    ensures
        a == b,
    decreases a.len(),
{
    if a.len() > 0 && b.len() > 0 {
        lemma_lex_le_antisymmetric(a.drop_first(), b.drop_first());
        assert(a =~= seq![a[0]] + a.drop_first());
        assert(b =~= seq![b[0]] + b.drop_first());
    } else {
        assert(a =~= b);
    }
}

/// The order is transitive.
pub proof fn lemma_lex_le_transitive(a: Seq<char>, b: Seq<char>, c: Seq<char>)
    requires
        lex_le(a, b),
        lex_le(b, c),
    ensures
        lex_le(a, c),
    decreases a.len(),
{
    if a.len() > 0 && b.len() > 0 && c.len() > 0 {
        if a[0] == b[0] && b[0] == c[0] {
            lemma_lex_le_transitive(a.drop_first(), b.drop_first(), c.drop_first());
        }
    }
}

/// Any two sequences are ordered one way or the other.
pub proof fn lemma_lex_le_total(a: Seq<char>, b: Seq<char>)
    ensures
        lex_le(a, b) || lex_le(b, a),
    decreases a.len(),
{
    if a.len() > 0 && b.len() > 0 {
        if a[0] == b[0] {
            lemma_lex_le_total(a.drop_first(), b.drop_first());
        } else {
            assert((a[0] as int) != (b[0] as int));
        }
    }
}

/// Strictly before in `lex_le`.
pub open spec fn lex_lt(a: Seq<char>, b: Seq<char>) -> bool {
    lex_le(a, b) && a != b
}

/// The strict order is transitive.
pub proof fn lemma_lex_lt_transitive(a: Seq<char>, b: Seq<char>, c: Seq<char>)
    requires
        lex_lt(a, b),
        lex_lt(b, c),
    ensures
        lex_lt(a, c),
{
    lemma_lex_le_transitive(a, b, c);
    if a == c {
        lemma_lex_le_antisymmetric(a, b);
    }
}

/// Every earlier sequence comes strictly before every later one.
pub open spec fn strictly_sorted(s: Seq<Seq<char>>) -> bool {
    forall|i: int, j: int| 0 <= i < j < s.len() ==> lex_lt(#[trigger] s[i], #[trigger] s[j])
}

/// The characters of each vector.
pub open spec fn char_views(v: Seq<Vec<char>>) -> Seq<Seq<char>> {
    v.map_values(|c: Vec<char>| c@)
}

/// Binary search of strictly ascending keys: `Ok(k)` when `keys[k]` is
/// `key`, otherwise `Err(k)` with the position where `key` keeps them in
/// order.
pub(crate) fn search_sorted(keys: &Vec<Vec<char>>, key: &Vec<char>) -> (found: Result<usize, usize>)
    requires
        strictly_sorted(char_views(keys@)),
    ensures
        match found {
            Ok(k) => k < keys.len() && keys@[k as int]@ == key@,
            Err(p) => p <= keys.len()
                && (forall|k: int| 0 <= k < p ==> lex_lt(#[trigger] keys@[k]@, key@))
                && (forall|k: int| p <= k < keys.len() ==> lex_lt(key@, #[trigger] keys@[k]@)),
        },
{
    let ghost s = char_views(keys@);
    let mut lo: usize = 0;
    let mut hi: usize = keys.len();
    while lo < hi
        invariant
            s == char_views(keys@),
            strictly_sorted(s),
            lo <= hi <= keys.len(),
            forall|k: int| 0 <= k < lo ==> lex_lt(#[trigger] keys@[k]@, key@),
            forall|k: int| hi <= k < keys.len() ==> lex_lt(key@, #[trigger] keys@[k]@),
        decreases hi - lo,
    {
        let mid = lo + (hi - lo) / 2;
        let stored = &keys[mid];
        if chars_eq(stored, key) {
            return Ok(mid);
        }
        if chars_le(stored, key) {
            proof {
                assert forall|k: int| 0 <= k < mid + 1 implies lex_lt(#[trigger] keys@[k]@, key@) by {
                    if k < mid {
                        assert(s[k] == keys@[k]@ && s[mid as int] == keys@[mid as int]@);
                        lemma_lex_lt_transitive(keys@[k]@, stored@, key@);
                    }
                }
            }
            lo = mid + 1;
        } else {
            proof {
                lemma_lex_le_total(stored@, key@);
                assert forall|k: int| mid <= k < keys.len() implies lex_lt(key@, #[trigger] keys@[k]@) by {
                    if k > mid {
                        assert(s[k] == keys@[k]@ && s[mid as int] == keys@[mid as int]@);
                        lemma_lex_lt_transitive(key@, stored@, keys@[k]@);
                    }
                }
            }
            hi = mid;
        }
    }
    Err(lo)
}

/// `lex_le` of two character vectors.
pub(crate) fn chars_le(a: &Vec<char>, b: &Vec<char>) -> (le: bool)
    ensures
        le == lex_le(a@, b@),
{
    let mut i: usize = 0;
    assert(a@.skip(0) =~= a@);
    assert(b@.skip(0) =~= b@);
    while i < a.len() && i < b.len() && a[i] == b[i]
        invariant
            i <= a.len(),
            i <= b.len(),
            lex_le(a@, b@) == lex_le(a@.skip(i as int), b@.skip(i as int)),
        decreases a.len() - i,
    {
        assert(a@.skip(i as int).drop_first() =~= a@.skip(i + 1));
        assert(b@.skip(i as int).drop_first() =~= b@.skip(i + 1));
        i = i + 1;
    }
    if i == a.len() {
        true
    } else if i == b.len() {
        false
    } else {
        assert(a@.skip(i as int)[0] == a@[i as int]);
        assert(b@.skip(i as int)[0] == b@[i as int]);
        a[i] < b[i]
    }
}

/// Whether two character vectors are equal.
pub(crate) fn chars_eq(a: &Vec<char>, b: &Vec<char>) -> (eq: bool)
    ensures
        eq == (a@ == b@),
{
    if a.len() != b.len() {
        return false;
    }
    let mut i: usize = 0;
    while i < a.len()
        invariant
            a.len() == b.len(),
            i <= a.len(),
            forall|k: int| 0 <= k < i ==> a@[k] == b@[k],
        decreases a.len() - i,
    {
        if a[i] != b[i] {
            return false;
        }
        i = i + 1;
    }
    assert(a@ =~= b@);
    true
}

/// `<[String]>::sort_unstable`: the strings end up in ascending order of
/// `String`'s `Ord` (`lex_le` on their characters), as a rearrangement of
/// the strings that were there.
#[verifier::external_body]
pub(crate) fn sort_strings(v: &mut Vec<String>)
    ensures
        final(v).len() == old(v).len(),
        views(final(v)@).to_multiset() == views(old(v)@).to_multiset(),
        sorted(views(final(v)@)),
{
    v.sort_unstable();
}

} // verus!
