//! The order of paths: name by name, as the file system reads a path
//! whose names are separated by `/`.
//!
//! A path is read as a list of names. A leading separator is the root; a
//! leading `.` is the current directory; `..` is the parent directory;
//! empty names and every other `.` are passed over. The root comes before
//! the current directory, that before the parent directory, and that
//! before every ordinary name; ordinary names go by their bytes. Two
//! spellings of one list of names go by the bytes of the spelling.

use vstd::prelude::*;
use vstd::utf8::encode_utf8;

verus! {

/// The byte that separates the names of a path.
pub const SEPARATOR: u8 = 0x2F;

/// The byte of a dot.
pub const DOT: u8 = 0x2E;

/// One name of a path.
pub enum PathName {
    Root,
    CurDir,
    ParentDir,
    Normal(Seq<u8>),
}

/// The order of byte strings: the first byte in which two differ decides;
/// a string comes before those that it begins.
pub open spec fn bytes_le(a: Seq<u8>, b: Seq<u8>) -> bool
    decreases a.len(),
{
    if a.len() == 0 {
        true
    } else if b.len() == 0 {
        false
    } else if a[0] != b[0] {
        a[0] < b[0]
    } else {
        bytes_le(a.drop_first(), b.drop_first())
    }
}

/// The place of a kind of name among the kinds.
pub open spec fn kind_rank(name: PathName) -> int {
    match name {
        PathName::Root => 0,
        PathName::CurDir => 1,
        PathName::ParentDir => 2,
        PathName::Normal(_) => 3,
    }
}

/// The order of names: by kind, and ordinary names by their bytes.
pub open spec fn name_le(x: PathName, y: PathName) -> bool {
    if kind_rank(x) != kind_rank(y) {
        kind_rank(x) < kind_rank(y)
    } else {
        match (x, y) {
            (PathName::Normal(a), PathName::Normal(b)) => bytes_le(a, b),
            _ => true,
        }
    }
}

/// The order of lists of names: the first name in which two lists differ
/// decides; a list comes before those that it begins.
pub open spec fn names_le(first: Seq<PathName>, second: Seq<PathName>) -> bool
    decreases first.len(),
{
    if first.len() == 0 {
        true
    } else if second.len() == 0 {
        false
    } else if first[0] != second[0] {
        name_le(first[0], second[0])
    } else {
        names_le(first.drop_first(), second.drop_first())
    }
}

/// The name that one piece between separators gives, if any. An empty
/// piece gives none; `.` gives the current directory where it leads the
/// path and none elsewhere; `..` gives the parent directory.
pub open spec fn piece_names(piece: Seq<u8>, leading: bool) -> Seq<PathName> {
    if piece.len() == 0 {
        seq![]
    } else if piece.len() == 1 && piece[0] == DOT {
        if leading {
            seq![PathName::CurDir]
        } else {
            seq![]
        }
    } else if piece.len() == 2 && piece[0] == DOT && piece[1] == DOT {
        seq![PathName::ParentDir]
    } else {
        seq![PathName::Normal(piece)]
    }
}

/// The names from byte `at` on, where the piece at hand began at `start`.
pub open spec fn names_scan(bytes: Seq<u8>, start: int, at: int, leading: bool) -> Seq<PathName>
    decreases bytes.len() - at,
{
    if at >= bytes.len() {
        piece_names(bytes.subrange(start, bytes.len() as int), leading)
    } else if bytes[at] == SEPARATOR {
        piece_names(bytes.subrange(start, at), leading) + names_scan(bytes, at + 1, at + 1, false)
    } else {
        names_scan(bytes, start, at + 1, leading)
    }
}

/// The names of a path.
pub open spec fn path_names(bytes: Seq<u8>) -> Seq<PathName> {
    if bytes.len() > 0 && bytes[0] == SEPARATOR {
        seq![PathName::Root] + names_scan(bytes, 0, 0, false)
    } else {
        names_scan(bytes, 0, 0, true)
    }
}

/// The order of paths by their names alone. Two spellings of one list of
/// names come before each other.
pub open spec fn names_order(a: Seq<char>, b: Seq<char>) -> bool {
    names_le(path_names(encode_utf8(a)), path_names(encode_utf8(b)))
}

/// The order of paths: by their names; two spellings of one list of names
/// by their bytes.
pub open spec fn path_le(a: Seq<char>, b: Seq<char>) -> bool {
    if path_names(encode_utf8(a)) == path_names(encode_utf8(b)) {
        bytes_le(encode_utf8(a), encode_utf8(b))
    } else {
        names_order(a, b)
    }
}

/// Of two byte strings one comes before the other.
pub proof fn lemma_bytes_le_total(a: Seq<u8>, b: Seq<u8>)
    ensures
        bytes_le(a, b) || bytes_le(b, a),
    decreases a.len(),
{
    if a.len() > 0 && b.len() > 0 && a[0] == b[0] {
        lemma_bytes_le_total(a.drop_first(), b.drop_first());
    }
}

/// A byte string that comes before one that comes before a third comes
/// before the third.
pub proof fn lemma_bytes_le_transitive(a: Seq<u8>, b: Seq<u8>, c: Seq<u8>)
    requires
        bytes_le(a, b),
        bytes_le(b, c),
    ensures
        bytes_le(a, c),
    decreases a.len(),
{
    if a.len() > 0 && b.len() > 0 && c.len() > 0 && a[0] == b[0] && b[0] == c[0] {
        lemma_bytes_le_transitive(a.drop_first(), b.drop_first(), c.drop_first());
    }
}

/// Two byte strings that come before each other are one string.
pub proof fn lemma_bytes_le_antisymmetric(a: Seq<u8>, b: Seq<u8>)
    requires
        bytes_le(a, b),
        bytes_le(b, a),
    ensures
        a == b,
    decreases a.len(),
{
    if a.len() > 0 && b.len() > 0 {
        lemma_bytes_le_antisymmetric(a.drop_first(), b.drop_first());
        assert(a =~= seq![a[0]] + a.drop_first());
        assert(b =~= seq![b[0]] + b.drop_first());
    } else {
        assert(a =~= b);
    }
}

/// Of two names one comes before the other.
pub proof fn lemma_name_le_total(x: PathName, y: PathName)
    ensures
        name_le(x, y) || name_le(y, x),
{
    match (x, y) {
        (PathName::Normal(a), PathName::Normal(b)) => lemma_bytes_le_total(a, b),
        _ => {},
    }
}

/// A name that comes before one that comes before a third comes before the
/// third.
pub proof fn lemma_name_le_transitive(x: PathName, y: PathName, z: PathName)
    requires
        name_le(x, y),
        name_le(y, z),
    ensures
        name_le(x, z),
{
    match (x, y, z) {
        (PathName::Normal(a), PathName::Normal(b), PathName::Normal(c)) => {
            lemma_bytes_le_transitive(a, b, c)
        },
        _ => {},
    }
}

/// Two names that come before each other are one name.
pub proof fn lemma_name_le_antisymmetric(x: PathName, y: PathName)
    requires
        name_le(x, y),
        name_le(y, x),
    ensures
        x == y,
{
    match (x, y) {
        (PathName::Normal(a), PathName::Normal(b)) => lemma_bytes_le_antisymmetric(a, b),
        _ => {},
    }
}

/// Of two lists of names one comes before the other.
pub proof fn lemma_names_le_total(xs: Seq<PathName>, ys: Seq<PathName>)
    ensures
        names_le(xs, ys) || names_le(ys, xs),
    decreases xs.len(),
{
    if xs.len() > 0 && ys.len() > 0 {
        if xs[0] == ys[0] {
            lemma_names_le_total(xs.drop_first(), ys.drop_first());
        } else {
            lemma_name_le_total(xs[0], ys[0]);
        }
    }
}

/// A list of names that comes before one that comes before a third comes
/// before the third.
pub proof fn lemma_names_le_transitive(xs: Seq<PathName>, ys: Seq<PathName>, zs: Seq<PathName>)
    requires
        names_le(xs, ys),
        names_le(ys, zs),
    ensures
        names_le(xs, zs),
    decreases xs.len(),
{
    if xs.len() > 0 && ys.len() > 0 && zs.len() > 0 {
        if xs[0] == ys[0] && ys[0] == zs[0] {
            lemma_names_le_transitive(xs.drop_first(), ys.drop_first(), zs.drop_first());
        } else if xs[0] != ys[0] && ys[0] != zs[0] {
            lemma_name_le_transitive(xs[0], ys[0], zs[0]);
            if xs[0] == zs[0] {
                lemma_name_le_antisymmetric(xs[0], ys[0]);
            }
        }
    }
}

/// Two lists of names that come before each other are one list.
pub proof fn lemma_names_le_antisymmetric(xs: Seq<PathName>, ys: Seq<PathName>)
    requires
        names_le(xs, ys),
        names_le(ys, xs),
    ensures
        xs == ys,
    decreases xs.len(),
{
    if xs.len() > 0 && ys.len() > 0 {
        if xs[0] != ys[0] {
            lemma_name_le_antisymmetric(xs[0], ys[0]);
        }
        lemma_names_le_antisymmetric(xs.drop_first(), ys.drop_first());
        assert(xs =~= seq![xs[0]] + xs.drop_first());
        assert(ys =~= seq![ys[0]] + ys.drop_first());
    } else {
        assert(xs =~= ys);
    }
}

/// Of two paths one comes before the other.
pub proof fn lemma_path_le_total(a: Seq<char>, b: Seq<char>)
    ensures
        path_le(a, b) || path_le(b, a),
{
    lemma_bytes_le_total(encode_utf8(a), encode_utf8(b));
    lemma_names_le_total(path_names(encode_utf8(a)), path_names(encode_utf8(b)));
}

/// A path that comes before one that comes before a third comes before
/// the third.
pub proof fn lemma_path_le_transitive(a: Seq<char>, b: Seq<char>, c: Seq<char>)
    requires
        path_le(a, b),
        path_le(b, c),
    ensures
        path_le(a, c),
{
    let na = path_names(encode_utf8(a));
    let nb = path_names(encode_utf8(b));
    let nc = path_names(encode_utf8(c));
    lemma_names_le_total(na, na);
    lemma_names_le_total(nb, nb);
    if na == nb && nb == nc {
        lemma_bytes_le_transitive(encode_utf8(a), encode_utf8(b), encode_utf8(c));
    } else {
        lemma_names_le_transitive(na, nb, nc);
        if na == nc {
            lemma_names_le_antisymmetric(na, nb);
        }
    }
}

/// Two paths that come before each other are one path.
pub proof fn lemma_path_le_antisymmetric(a: Seq<char>, b: Seq<char>)
    requires
        path_le(a, b),
        path_le(b, a),
    ensures
        a == b,
{
    let na = path_names(encode_utf8(a));
    let nb = path_names(encode_utf8(b));
    if na == nb {
        lemma_bytes_le_antisymmetric(encode_utf8(a), encode_utf8(b));
        vstd::utf8::encode_utf8_decode_utf8(a);
        vstd::utf8::encode_utf8_decode_utf8(b);
    } else {
        lemma_names_le_antisymmetric(na, nb);
    }
}

/// A path that comes before another does so by its names.
pub proof fn lemma_path_le_follows_names(a: Seq<char>, b: Seq<char>)
    requires
        path_le(a, b),
    ensures
        names_order(a, b),
{
    lemma_names_le_total(path_names(encode_utf8(a)), path_names(encode_utf8(a)));
}

/// The order of paths is a total order.
pub proof fn lemma_path_le_is_total_order()
    ensures
        vstd::relations::total_ordering(|a: Seq<char>, b: Seq<char>| path_le(a, b)),
{
    let leq = |a: Seq<char>, b: Seq<char>| path_le(a, b);
    assert forall|a: Seq<char>| #[trigger] leq(a, a) by {
        lemma_path_le_total(a, a);
    }
    assert forall|a: Seq<char>, b: Seq<char>| #[trigger] leq(a, b) && #[trigger] leq(b, a) implies a
        == b by {
        lemma_path_le_antisymmetric(a, b);
    }
    assert forall|a: Seq<char>, b: Seq<char>, c: Seq<char>| #[trigger]
        leq(a, b) && #[trigger] leq(b, c) implies leq(a, c) by {
        lemma_path_le_transitive(a, b, c);
    }
    assert forall|a: Seq<char>, b: Seq<char>| #[trigger] leq(a, b) || #[trigger] leq(b, a) by {
        lemma_path_le_total(a, b);
    }
}

/// The kind of a name.
#[derive(Clone, Copy, Debug, PartialEq, Eq, Structural)]
pub enum NameKind {
    Root,
    CurDir,
    ParentDir,
    Normal,
}

/// A name of a path as it lies in the path's bytes: its kind and, for an
/// ordinary name, where it begins and ends.
#[derive(Clone, Copy, Debug)]
pub struct NameSpan {
    pub kind: NameKind,
    pub start: usize,
    pub end: usize,
}

/// How one thing stands to another in an order.
#[derive(Clone, Copy, Debug, PartialEq, Eq, Structural)]
pub enum Side {
    Before,
    Same,
    After,
}

/// The name that a span stands for in a path.
pub open spec fn span_name(bytes: Seq<u8>, span: NameSpan) -> PathName {
    match span.kind {
        NameKind::Root => PathName::Root,
        NameKind::CurDir => PathName::CurDir,
        NameKind::ParentDir => PathName::ParentDir,
        NameKind::Normal => PathName::Normal(bytes.subrange(span.start as int, span.end as int)),
    }
}

/// The names that spans stand for in a path, in order.
pub open spec fn spans_names(bytes: Seq<u8>, spans: Seq<NameSpan>) -> Seq<PathName> {
    spans.map_values(|span: NameSpan| span_name(bytes, span))
}

/// How byte string `a` stands to `b`.
pub open spec fn bytes_side(a: Seq<u8>, b: Seq<u8>) -> Side {
    if a == b {
        Side::Same
    } else if bytes_le(a, b) {
        Side::Before
    } else {
        Side::After
    }
}

/// How name `x` stands to `y`.
pub open spec fn name_side(x: PathName, y: PathName) -> Side {
    if x == y {
        Side::Same
    } else if name_le(x, y) {
        Side::Before
    } else {
        Side::After
    }
}

/// How the list of names `xs` stands to `ys`.
pub open spec fn names_side(xs: Seq<PathName>, ys: Seq<PathName>) -> Side {
    if xs == ys {
        Side::Same
    } else if names_le(xs, ys) {
        Side::Before
    } else {
        Side::After
    }
}

/// Two byte strings with the same first byte stand to each other as what
/// follows that byte does.
pub proof fn lemma_bytes_side_step(a: Seq<u8>, b: Seq<u8>)
    requires
        a.len() > 0,
        b.len() > 0,
        a[0] == b[0],
    ensures
        bytes_side(a, b) == bytes_side(a.drop_first(), b.drop_first()),
{
    assert(a =~= seq![a[0]] + a.drop_first());
    assert(b =~= seq![b[0]] + b.drop_first());
}

/// Two lists of names with the same first name stand to each other as
/// what follows that name does.
pub proof fn lemma_names_side_step(xs: Seq<PathName>, ys: Seq<PathName>)
    requires
        xs.len() > 0,
        ys.len() > 0,
        xs[0] == ys[0],
    ensures
        names_side(xs, ys) == names_side(xs.drop_first(), ys.drop_first()),
{
    assert(xs =~= seq![xs[0]] + xs.drop_first());
    assert(ys =~= seq![ys[0]] + ys.drop_first());
}

/// Says how the bytes of `x` from `from_x` to `to_x` stand to those of `y`
/// from `from_y` to `to_y`.
pub fn side_of_bytes(
    x: &[u8],
    from_x: usize,
    to_x: usize,
    y: &[u8],
    from_y: usize,
    to_y: usize,
) -> (side: Side)
    requires
        from_x <= to_x <= x@.len(),
        from_y <= to_y <= y@.len(),
    ensures
        side == bytes_side(
            x@.subrange(from_x as int, to_x as int),
            y@.subrange(from_y as int, to_y as int),
        ),
{
    let ghost a = x@.subrange(from_x as int, to_x as int);
    let ghost b = y@.subrange(from_y as int, to_y as int);
    let mut i: usize = from_x;
    let mut j: usize = from_y;
    assert(a.skip(0) =~= a && b.skip(0) =~= b);
    while i < to_x && j < to_y
        invariant
            from_x <= i <= to_x <= x@.len(),
            from_y <= j <= to_y <= y@.len(),
            i - from_x == j - from_y,
            a == x@.subrange(from_x as int, to_x as int),
            b == y@.subrange(from_y as int, to_y as int),
            bytes_side(a, b) == bytes_side(a.skip(i - from_x), b.skip(j - from_y)),
        decreases to_x - i,
    {
        let ghost rest_a = a.skip(i - from_x);
        let ghost rest_b = b.skip(j - from_y);
        assert(rest_a[0] == x@[i as int]);
        assert(rest_b[0] == y@[j as int]);
        if x[i] < y[j] {
            return Side::Before;
        }
        if x[i] > y[j] {
            return Side::After;
        }
        proof {
            lemma_bytes_side_step(rest_a, rest_b);
            assert(rest_a.drop_first() =~= a.skip(i + 1 - from_x));
            assert(rest_b.drop_first() =~= b.skip(j + 1 - from_y));
        }
        i += 1;
        j += 1;
    }
    let ghost rest_a = a.skip(i - from_x);
    let ghost rest_b = b.skip(j - from_y);
    if i == to_x && j == to_y {
        assert(rest_a =~= rest_b);
        Side::Same
    } else if i == to_x {
        assert(rest_a.len() == 0 && rest_b.len() > 0);
        Side::Before
    } else {
        assert(rest_b.len() == 0 && rest_a.len() > 0);
        Side::After
    }
}

/// The place of a kind of name among the kinds.
pub fn rank_of(kind: NameKind) -> (rank: u8)
    ensures
        rank == match kind {
            NameKind::Root => 0int,
            NameKind::CurDir => 1int,
            NameKind::ParentDir => 2int,
            NameKind::Normal => 3int,
        },
{
    match kind {
        NameKind::Root => 0,
        NameKind::CurDir => 1,
        NameKind::ParentDir => 2,
        NameKind::Normal => 3,
    }
}

/// Says how name `a` of path `x` stands to name `b` of path `y`.
pub fn side_of_name(x: &[u8], a: NameSpan, y: &[u8], b: NameSpan) -> (side: Side)
    requires
        a.start <= a.end <= x@.len(),
        b.start <= b.end <= y@.len(),
    ensures
        side == name_side(span_name(x@, a), span_name(y@, b)),
{
    let rank_a = rank_of(a.kind);
    let rank_b = rank_of(b.kind);
    if rank_a < rank_b {
        Side::Before
    } else if rank_a > rank_b {
        Side::After
    } else if rank_a == 3 {
        side_of_bytes(x, a.start, a.end, y, b.start, b.end)
    } else {
        Side::Same
    }
}

/// Says how the names `xs` of path `x` stand to the names `ys` of path
/// `y`.
pub fn side_of_names(x: &[u8], xs: &Vec<NameSpan>, y: &[u8], ys: &Vec<NameSpan>) -> (side: Side)
    requires
        forall|k: int|
            0 <= k < xs@.len() ==> (#[trigger] xs@[k]).start <= xs@[k].end <= x@.len(),
        forall|k: int|
            0 <= k < ys@.len() ==> (#[trigger] ys@[k]).start <= ys@[k].end <= y@.len(),
    ensures
        side == names_side(spans_names(x@, xs@), spans_names(y@, ys@)),
{
    let ghost a = spans_names(x@, xs@);
    let ghost b = spans_names(y@, ys@);
    let mut i: usize = 0;
    assert(a.skip(0) =~= a && b.skip(0) =~= b);
    while i < xs.len() && i < ys.len()
        invariant
            i <= xs@.len(),
            i <= ys@.len(),
            a == spans_names(x@, xs@),
            b == spans_names(y@, ys@),
            forall|k: int|
                0 <= k < xs@.len() ==> (#[trigger] xs@[k]).start <= xs@[k].end <= x@.len(),
            forall|k: int|
                0 <= k < ys@.len() ==> (#[trigger] ys@[k]).start <= ys@[k].end <= y@.len(),
            names_side(a, b) == names_side(a.skip(i as int), b.skip(i as int)),
        decreases xs@.len() - i,
    {
        let ghost rest_a = a.skip(i as int);
        let ghost rest_b = b.skip(i as int);
        assert(rest_a[0] == span_name(x@, xs@[i as int]));
        assert(rest_b[0] == span_name(y@, ys@[i as int]));
        let side = side_of_name(x, xs[i], y, ys[i]);
        match side {
            Side::Same => {},
            _ => {
                return side;
            },
        }
        proof {
            lemma_names_side_step(rest_a, rest_b);
            assert(rest_a.drop_first() =~= a.skip(i + 1));
            assert(rest_b.drop_first() =~= b.skip(i + 1));
        }
        i += 1;
    }
    let ghost rest_a = a.skip(i as int);
    let ghost rest_b = b.skip(i as int);
    if i == xs.len() && i == ys.len() {
        assert(rest_a =~= rest_b);
        Side::Same
    } else if i == xs.len() {
        assert(rest_a.len() == 0 && rest_b.len() > 0);
        Side::Before
    } else {
        assert(rest_b.len() == 0 && rest_a.len() > 0);
        Side::After
    }
}

/// Appends the name that the piece of `bytes` from `start` to `end` gives,
/// if it gives one.
pub fn push_piece(spans: &mut Vec<NameSpan>, bytes: &[u8], start: usize, end: usize, leading: bool)
    requires
        start <= end <= bytes@.len(),
        forall|k: int|
            0 <= k < old(spans)@.len() ==> (#[trigger] old(spans)@[k]).start <= old(spans)@[k].end
                <= bytes@.len(),
    ensures
        spans_names(bytes@, final(spans)@) == spans_names(bytes@, old(spans)@) + piece_names(
            bytes@.subrange(start as int, end as int),
            leading,
        ),
        forall|k: int|
            0 <= k < final(spans)@.len() ==> (#[trigger] final(spans)@[k]).start
                <= final(spans)@[k].end <= bytes@.len(),
{
    let ghost before = spans_names(bytes@, spans@);
    let ghost piece = bytes@.subrange(start as int, end as int);
    let len = end - start;
    if len == 0 {
        assert(spans_names(bytes@, spans@) =~= before + piece_names(piece, leading));
    } else if len == 1 && bytes[start] == DOT {
        assert(piece[0] == bytes@[start as int]);
        if leading {
            spans.push(NameSpan { kind: NameKind::CurDir, start, end });
        }
        assert(spans_names(bytes@, spans@) =~= before + piece_names(piece, leading));
    } else if len == 2 && bytes[start] == DOT && bytes[start + 1] == DOT {
        assert(piece[0] == bytes@[start as int] && piece[1] == bytes@[start + 1]);
        spans.push(NameSpan { kind: NameKind::ParentDir, start, end });
        assert(spans_names(bytes@, spans@) =~= before + piece_names(piece, leading));
    } else {
        assert(piece[0] == bytes@[start as int]);
        if len == 2 {
            assert(piece[1] == bytes@[start + 1]);
        }
        spans.push(NameSpan { kind: NameKind::Normal, start, end });
        assert(spans_names(bytes@, spans@) =~= before + piece_names(piece, leading));
    }
}

/// Reads the names of a path.
pub fn split_names(bytes: &[u8]) -> (spans: Vec<NameSpan>)
    ensures
        spans_names(bytes@, spans@) == path_names(bytes@),
        forall|k: int|
            0 <= k < spans@.len() ==> (#[trigger] spans@[k]).start <= spans@[k].end <= bytes@.len(),
{
    let mut spans: Vec<NameSpan> = Vec::new();
    let rooted = bytes.len() > 0 && bytes[0] == SEPARATOR;
    if rooted {
        spans.push(NameSpan { kind: NameKind::Root, start: 0, end: 0 });
    }
    let mut leading = !rooted;
    let mut start: usize = 0;
    let mut at: usize = 0;
    assert(spans_names(bytes@, spans@) + names_scan(bytes@, 0, 0, leading) =~= path_names(bytes@));
    while at < bytes.len()
        invariant
            start <= at <= bytes@.len(),
            forall|k: int|
                0 <= k < spans@.len() ==> (#[trigger] spans@[k]).start <= spans@[k].end
                    <= bytes@.len(),
            spans_names(bytes@, spans@) + names_scan(bytes@, start as int, at as int, leading)
                == path_names(bytes@),
        decreases bytes@.len() - at,
    {
        if bytes[at] == SEPARATOR {
            let ghost sofar = spans_names(bytes@, spans@);
            let ghost piece = piece_names(bytes@.subrange(start as int, at as int), leading);
            let ghost rest = names_scan(bytes@, at + 1, at + 1, false);
            push_piece(&mut spans, bytes, start, at, leading);
            assert((sofar + piece) + rest =~= sofar + (piece + rest));
            start = at + 1;
            leading = false;
        }
        at += 1;
    }
    let ghost sofar = spans_names(bytes@, spans@);
    push_piece(&mut spans, bytes, start, at, leading);
    spans
}

/// Whether path `a` comes before path `b`, or is the same path.
pub fn path_precedes(a: &str, b: &str) -> (r: bool)
    ensures
        r == path_le(a@, b@),
{
    let x = a.as_bytes();
    let y = b.as_bytes();
    let names_x = split_names(x);
    let names_y = split_names(y);
    match side_of_names(x, &names_x, y, &names_y) {
        Side::Before => true,
        Side::After => false,
        Side::Same => {
            let side = side_of_bytes(x, 0, x.len(), y, 0, y.len());
            proof {
                assert(x@.subrange(0, x@.len() as int) =~= x@);
                assert(y@.subrange(0, y@.len() as int) =~= y@);
                lemma_bytes_le_total(x@, x@);
            }
            match side {
                Side::After => false,
                _ => true,
            }
        },
    }
}

} // verus!
