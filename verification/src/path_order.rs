use vstd::prelude::*;

use crate::order::{
    chars_eq, chars_le, lemma_lex_le_antisymmetric, lemma_lex_le_total, lemma_lex_le_transitive, lex_le,
};
use crate::text::chars_of;

verus! {

/// `s` cut at every `/`: the pieces between separators, empty ones
/// included (there is always at least one piece).
pub open spec fn split_slash(s: Seq<char>) -> Seq<Seq<char>>
    decreases s.len(),
{
    if s.len() == 0 {
        seq![Seq::<char>::empty()]
    } else if s.last() == '/' {
        split_slash(s.drop_last()).push(Seq::<char>::empty())
    } else {
        let p = split_slash(s.drop_last());
        p.update(p.len() - 1, p.last().push(s.last()))
    }
}

/// `split_slash` never gives an empty list of pieces.
pub proof fn lemma_split_slash_len(s: Seq<char>)
    ensures
        split_slash(s).len() >= 1,
    decreases s.len(),
{
    if s.len() > 0 {
        lemma_split_slash_len(s.drop_last());
    }
}

/// A component of a Unix path, as `std::path::Path::components` yields it.
pub enum PathPart {
    Root,
    Current,
    Parent,
    Normal(Seq<char>),
}

/// The components that one piece between separators contributes: none
/// for an empty piece or `.`, the parent for `..`, the piece itself
/// otherwise.
pub open spec fn piece_parts(piece: Seq<char>) -> Seq<PathPart> {
    if piece.len() == 0 || piece == seq!['.'] {
        Seq::empty()
    } else if piece == seq!['.', '.'] {
        seq![PathPart::Parent]
    } else {
        seq![PathPart::Normal(piece)]
    }
}

/// The components of a list of pieces, in order.
pub open spec fn pieces_parts(pieces: Seq<Seq<char>>) -> Seq<PathPart>
    decreases pieces.len(),
{
    if pieces.len() == 0 {
        Seq::empty()
    } else {
        pieces_parts(pieces.drop_last()) + piece_parts(pieces.last())
    }
}

/// The components of the path `s`: the root when it starts with `/`, the
/// current directory when a relative path starts with the piece `.`, then
/// the components of the remaining pieces.
pub open spec fn path_parts(s: Seq<char>) -> Seq<PathPart> {
    let pieces = split_slash(s);
    if s.len() > 0 && s[0] == '/' {
        seq![PathPart::Root] + pieces_parts(pieces.drop_first())
    } else if pieces[0] == seq!['.'] {
        seq![PathPart::Current] + pieces_parts(pieces.drop_first())
    } else {
        pieces_parts(pieces)
    }
}

/// The rank of a component kind in `Component`'s order.
pub open spec fn part_rank(p: PathPart) -> int {
    match p {
        PathPart::Root => 0,
        PathPart::Current => 1,
        PathPart::Parent => 2,
        PathPart::Normal(_) => 3,
    }
}

/// The order of components: by kind (root, current, parent, name), and
/// names by their characters.
pub open spec fn part_le(a: PathPart, b: PathPart) -> bool {
    match (a, b) {
        (PathPart::Normal(x), PathPart::Normal(y)) => lex_le(x, y),
        _ => part_rank(a) <= part_rank(b),
    }
}

/// Lexicographic order of component lists.
pub open spec fn parts_le(a: Seq<PathPart>, b: Seq<PathPart>) -> bool
    decreases a.len(),
{
    if a.len() == 0 {
        true
    } else if b.len() == 0 {
        false
    } else if a[0] != b[0] {
        part_le(a[0], b[0])
    } else {
        parts_le(a.drop_first(), b.drop_first())
    }
}

/// The order of `Path`'s `Ord`: the paths' components compared in turn.
pub open spec fn path_le(a: Seq<char>, b: Seq<char>) -> bool {
    parts_le(path_parts(a), path_parts(b))
}

/// Every earlier path comes no later than every later one.
pub open spec fn path_sorted(s: Seq<Seq<char>>) -> bool {
    forall|i: int, j: int| 0 <= i < j < s.len() ==> path_le(#[trigger] s[i], #[trigger] s[j])
}

proof fn lemma_part_le_total(a: PathPart, b: PathPart)
    ensures
        part_le(a, b) || part_le(b, a),
{
    if let (PathPart::Normal(x), PathPart::Normal(y)) = (a, b) {
        lemma_lex_le_total(x, y);
    }
}

proof fn lemma_part_le_antisymmetric(a: PathPart, b: PathPart)
    requires
        part_le(a, b),
        part_le(b, a),
    ensures
        a == b,
{
    if let (PathPart::Normal(x), PathPart::Normal(y)) = (a, b) {
        lemma_lex_le_antisymmetric(x, y);
    }
}

proof fn lemma_part_le_transitive(a: PathPart, b: PathPart, c: PathPart)
    requires
        part_le(a, b),
        part_le(b, c),
    ensures
        part_le(a, c),
{
    if let (PathPart::Normal(x), PathPart::Normal(y), PathPart::Normal(z)) = (a, b, c) {
        lemma_lex_le_transitive(x, y, z);
    }
}

/// Any two paths are ordered one way or the other.
pub proof fn lemma_parts_le_total(a: Seq<PathPart>, b: Seq<PathPart>)
    ensures
        parts_le(a, b) || parts_le(b, a),
    decreases a.len(),
{
    if a.len() > 0 && b.len() > 0 {
        if a[0] == b[0] {
            lemma_parts_le_total(a.drop_first(), b.drop_first());
        } else {
            lemma_part_le_total(a[0], b[0]);
        }
    }
}

/// The path order is transitive.
pub proof fn lemma_parts_le_transitive(a: Seq<PathPart>, b: Seq<PathPart>, c: Seq<PathPart>)
    requires
        parts_le(a, b),
        parts_le(b, c),
    ensures
        parts_le(a, c),
    decreases a.len(),
{
    if a.len() > 0 && b.len() > 0 && c.len() > 0 {
        if a[0] == b[0] && b[0] == c[0] {
            lemma_parts_le_transitive(a.drop_first(), b.drop_first(), c.drop_first());
        } else if a[0] == b[0] {
            assert(part_le(b[0], c[0]));
        } else if b[0] == c[0] {
            assert(part_le(a[0], b[0]));
        } else {
            lemma_part_le_transitive(a[0], b[0], c[0]);
            if a[0] == c[0] {
                lemma_part_le_antisymmetric(a[0], b[0]);
            }
        }
    }
}

/// Two component lists that each come no later than the other are equal.
pub proof fn lemma_parts_le_antisymmetric(a: Seq<PathPart>, b: Seq<PathPart>)
    requires
        parts_le(a, b),
        parts_le(b, a),
    ensures
        a == b,
    decreases a.len(),
{
    if a.len() > 0 && b.len() > 0 {
        if a[0] == b[0] {
            lemma_parts_le_antisymmetric(a.drop_first(), b.drop_first());
            assert(a =~= seq![a[0]] + a.drop_first());
            assert(b =~= seq![b[0]] + b.drop_first());
        } else {
            lemma_part_le_antisymmetric(a[0], b[0]);
        }
    } else {
        assert(a =~= b);
    }
}

/// Strictly before in the path order: the components differ.
pub open spec fn parts_lt(a: Seq<PathPart>, b: Seq<PathPart>) -> bool {
    parts_le(a, b) && a != b
}

/// The strict path order is transitive.
pub proof fn lemma_parts_lt_transitive(a: Seq<PathPart>, b: Seq<PathPart>, c: Seq<PathPart>)
    requires
        parts_lt(a, b),
        parts_lt(b, c),
    ensures
        parts_lt(a, c),
{
    lemma_parts_le_transitive(a, b, c);
    if a == c {
        lemma_parts_le_antisymmetric(a, b);
    }
}

/// A component, as the comparison code holds it.
enum Part {
    Root,
    Current,
    Parent,
    Normal(Vec<char>),
}

spec fn part_view(p: Part) -> PathPart {
    match p {
        Part::Root => PathPart::Root,
        Part::Current => PathPart::Current,
        Part::Parent => PathPart::Parent,
        Part::Normal(v) => PathPart::Normal(v@),
    }
}

spec fn parts_view(v: Seq<Part>) -> Seq<PathPart> {
    v.map_values(|p: Part| part_view(p))
}

/// The pieces of a path between its separators.
fn split_path(chars: &Vec<char>) -> (pieces: Vec<Vec<char>>)
    ensures
        pieces@.map_values(|v: Vec<char>| v@) == split_slash(chars@),
{
    let mut pieces: Vec<Vec<char>> = Vec::new();
    let mut piece: Vec<char> = Vec::new();
    let mut i: usize = 0;
    while i < chars.len()
        invariant
            i <= chars.len(),
            pieces@.map_values(|v: Vec<char>| v@).push(piece@) == split_slash(chars@.take(i as int)),
        decreases chars.len() - i,
    {
        let ghost before = pieces@.map_values(|v: Vec<char>| v@).push(piece@);
        assert(chars@.take(i + 1).drop_last() =~= chars@.take(i as int));
        let c = chars[i];
        if c == '/' {
            pieces.push(piece);
            piece = Vec::new();
            assert(pieces@.map_values(|v: Vec<char>| v@).push(piece@) =~= before.push(
                Seq::<char>::empty(),
            ));
        } else {
            piece.push(c);
            assert(pieces@.map_values(|v: Vec<char>| v@).push(piece@) =~= before.update(
                before.len() - 1,
                before.last().push(c),
            ));
        }
        i = i + 1;
    }
    assert(chars@.take(chars.len() as int) =~= chars@);
    let ghost before = pieces@.map_values(|v: Vec<char>| v@);
    pieces.push(piece);
    assert(pieces@.map_values(|v: Vec<char>| v@) =~= before.push(piece@));
    pieces
}

fn is_dot(piece: &Vec<char>) -> (b: bool)
    ensures
        b == (piece@ == seq!['.']),
{
    let b = piece.len() == 1 && piece[0] == '.';
    proof {
        if piece@ == seq!['.'] {
            assert(piece@[0] == '.');
        }
    }
    if b {
        assert(piece@ =~= seq!['.']);
    }
    b
}

fn is_dot_dot(piece: &Vec<char>) -> (b: bool)
    ensures
        b == (piece@ == seq!['.', '.']),
{
    let b = piece.len() == 2 && piece[0] == '.' && piece[1] == '.';
    proof {
        if piece@ == seq!['.', '.'] {
            assert(piece@[0] == '.' && piece@[1] == '.');
        }
    }
    if b {
        assert(piece@ =~= seq!['.', '.']);
    }
    b
}

/// The components of a path.
fn parts_of(path: &str) -> (parts: Vec<Part>)
    ensures
        parts_view(parts@) == path_parts(path@),
{
    let chars = chars_of(path);
    let pieces = split_path(&chars);
    let ghost ps = pieces@.map_values(|v: Vec<char>| v@);
    proof {
        lemma_split_slash_len(chars@);
    }
    let mut parts: Vec<Part> = Vec::new();
    let mut start: usize = 0;
    if chars.len() > 0 && chars[0] == '/' {
        parts.push(Part::Root);
        start = 1;
    } else if is_dot(&pieces[0]) {
        parts.push(Part::Current);
        start = 1;
    }
    let ghost head = parts_view(parts@);
    assert(head == path_parts(chars@).take(head.len() as int)) by {
        if start == 1 {
            assert(head =~= seq![part_view(parts@[0])]);
        } else {
            assert(head =~= Seq::<PathPart>::empty());
        }
    }
    let mut k: usize = start;
    while k < pieces.len()
        invariant
            start <= k <= pieces.len(),
            start <= 1,
            ps == pieces@.map_values(|v: Vec<char>| v@),
            head.len() == start,
            parts_view(parts@) == head + pieces_parts(ps.subrange(start as int, k as int)),
        decreases pieces.len() - k,
    {
        let ghost before = parts_view(parts@);
        let piece = &pieces[k];
        assert(ps[k as int] == piece@);
        assert(ps.subrange(start as int, k + 1).drop_last() =~= ps.subrange(start as int, k as int));
        assert(ps.subrange(start as int, k + 1).last() == piece@);
        assert(pieces_parts(ps.subrange(start as int, k + 1)) == pieces_parts(
            ps.subrange(start as int, k as int),
        ) + piece_parts(piece@));
        if piece.len() == 0 || is_dot(piece) {
            assert(piece_parts(piece@) =~= Seq::<PathPart>::empty());
            assert(parts_view(parts@) =~= head + pieces_parts(ps.subrange(start as int, k + 1)));
        } else if is_dot_dot(piece) {
            parts.push(Part::Parent);
            assert(piece_parts(piece@) == seq![PathPart::Parent]);
            assert(parts_view(parts@) =~= before.push(PathPart::Parent));
            assert(parts_view(parts@) =~= head + pieces_parts(ps.subrange(start as int, k + 1)));
        } else {
            let copy = piece.clone();
            assert(copy@ == piece@);
            parts.push(Part::Normal(copy));
            assert(piece_parts(piece@) == seq![PathPart::Normal(piece@)]);
            assert(parts_view(parts@) =~= before.push(PathPart::Normal(piece@)));
            assert(parts_view(parts@) =~= head + pieces_parts(ps.subrange(start as int, k + 1)));
        }
        k = k + 1;
    }
    assert(ps.subrange(start as int, pieces.len() as int) =~= if start == 1 {
        ps.drop_first()
    } else {
        ps
    });
    assert(parts_view(parts@) =~= path_parts(path@));
    parts
}

fn rank(p: &Part) -> (r: u8)
    ensures
        r as int == part_rank(part_view(*p)),
{
    match p {
        Part::Root => 0,
        Part::Current => 1,
        Part::Parent => 2,
        Part::Normal(_) => 3,
    }
}

fn part_eq(a: &Part, b: &Part) -> (eq: bool)
    ensures
        eq == (part_view(*a) == part_view(*b)),
{
    match (a, b) {
        (Part::Normal(x), Part::Normal(y)) => chars_eq(x, y),
        _ => rank(a) == rank(b),
    }
}

fn part_le_exec(a: &Part, b: &Part) -> (le: bool)
    ensures
        le == part_le(part_view(*a), part_view(*b)),
{
    match (a, b) {
        (Part::Normal(x), Part::Normal(y)) => chars_le(x, y),
        _ => rank(a) <= rank(b),
    }
}

/// Whether path `a` comes no later than path `b` in `Path`'s order.
pub fn path_le_exec(a: &str, b: &str) -> (le: bool)
    ensures
        le == path_le(a@, b@),
{
    let pa = parts_of(a);
    let pb = parts_of(b);
    let ghost va = parts_view(pa@);
    let ghost vb = parts_view(pb@);
    let mut i: usize = 0;
    assert(va.skip(0) =~= va);
    assert(vb.skip(0) =~= vb);
    while i < pa.len() && i < pb.len() && part_eq(&pa[i], &pb[i])
        invariant
            i <= pa.len(),
            i <= pb.len(),
            va == parts_view(pa@),
            vb == parts_view(pb@),
            parts_le(va, vb) == parts_le(va.skip(i as int), vb.skip(i as int)),
        decreases pa.len() - i,
    {
        assert(va.skip(i as int).drop_first() =~= va.skip(i + 1));
        assert(vb.skip(i as int).drop_first() =~= vb.skip(i + 1));
        assert(va.skip(i as int)[0] == va[i as int]);
        assert(vb.skip(i as int)[0] == vb[i as int]);
        i = i + 1;
    }
    if i == pa.len() {
        true
    } else if i == pb.len() {
        false
    } else {
        assert(va.skip(i as int)[0] == va[i as int]);
        assert(vb.skip(i as int)[0] == vb[i as int]);
        part_le_exec(&pa[i], &pb[i])
    }
}

/// Whether two paths have the same components (`Path`'s `==`).
pub fn path_eq_exec(a: &str, b: &str) -> (eq: bool)
    ensures
        eq == (path_parts(a@) == path_parts(b@)),
{
    let pa = parts_of(a);
    let pb = parts_of(b);
    let ghost va = parts_view(pa@);
    let ghost vb = parts_view(pb@);
    assert(va.len() == pa.len() && vb.len() == pb.len());
    if pa.len() != pb.len() {
        return false;
    }
    let mut i: usize = 0;
    while i < pa.len()
        invariant
            pa.len() == pb.len(),
            i <= pa.len(),
            va == parts_view(pa@),
            vb == parts_view(pb@),
            va == path_parts(a@),
            vb == path_parts(b@),
            forall|k: int| 0 <= k < i ==> va[k] == vb[k],
        decreases pa.len() - i,
    {
        if !part_eq(&pa[i], &pb[i]) {
            assert(va[i as int] != vb[i as int]);
            return false;
        }
        i = i + 1;
    }
    assert(va =~= vb);
    true
}

} // verus!
