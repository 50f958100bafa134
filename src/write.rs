//! The canonical text form of a geometry model.
use vstd::prelude::*;
use crate::number::{
    Real, decimal, push_decimal, integer_in, is_digit, is_float_literal, lemma_decimal_digits,
    lemma_decimal_literal, lemma_float_literal_is_token,
};
use crate::obj::{
    are_floats, close_group, close_object, default_name, directive_of, any_normal_part, has_normal_part, line_of,
    lemma_pieces_without_slash, name_of, new_group, obj_step, pieces_from, refs_of, resolve_text,
    slash_pieces, triple, vertex_ref, Directive, Group, GroupModel, IndexTuple, Line, LineTuple,
    ObjData, ObjFault, ObjModel, ObjProgress, Object, ObjectModel, SimplePolygon,
};
use crate::text::{
    append_chars, is_token, is_ws, join_spaced, lemma_tokens_of_join, lemma_tokens_space,
    lemma_tokens_word, string_from_chars, tokens,
};

verus! {

/// The first line of every written file.
pub open spec fn header_text() -> Seq<char> {
    "# Generated by the obj Rust library (https://crates.io/crates/obj).\n"@
}

/// A one-based numeral for the zero-based index `i`.
pub open spec fn index_text(i: usize) -> Seq<char> {
    decimal((i + 1) as nat)
}

/// A polyline vertex: `p` or `p/t`.
pub open spec fn line_ref_text(r: LineTuple) -> Seq<char> {
    index_text(r.0) + match r.1 {
        Some(t) => seq!['/'] + index_text(t),
        None => seq![],
    }
}

/// A face vertex: `p`, `p/t`, `p//n` or `p/t/n`.
pub open spec fn face_ref_text(r: IndexTuple) -> Seq<char> {
    index_text(r.0) + match (r.1, r.2) {
        (Some(t), Some(n)) => seq!['/'] + index_text(t) + seq!['/'] + index_text(n),
        (Some(t), None) => seq!['/'] + index_text(t),
        (None, Some(n)) => seq!['/', '/'] + index_text(n),
        (None, None) => seq![],
    }
}

/// Each vertex of a polyline, after a space.
pub open spec fn line_refs_text(rs: Seq<LineTuple>) -> Seq<char>
    decreases rs.len(),
{
    if rs.len() == 0 {
        seq![]
    } else {
        line_refs_text(rs.drop_last()) + seq![' '] + line_ref_text(rs.last())
    }
}

/// Each vertex of a face, after a space.
pub open spec fn face_refs_text(rs: Seq<IndexTuple>) -> Seq<char>
    decreases rs.len(),
{
    if rs.len() == 0 {
        seq![]
    } else {
        face_refs_text(rs.drop_last()) + seq![' '] + face_ref_text(rs.last())
    }
}

/// One `l` line per polyline.
pub open spec fn lines_text(ls: Seq<Seq<LineTuple>>) -> Seq<char>
    decreases ls.len(),
{
    if ls.len() == 0 {
        seq![]
    } else {
        lines_text(ls.drop_last()) + seq!['l'] + line_refs_text(ls.last()) + seq!['\n']
    }
}

/// One `f` line per face.
pub open spec fn faces_text(fs: Seq<Seq<IndexTuple>>) -> Seq<char>
    decreases fs.len(),
{
    if fs.len() == 0 {
        seq![]
    } else {
        faces_text(fs.drop_last()) + seq!['f'] + face_refs_text(fs.last()) + seq!['\n']
    }
}

/// A `g` line, then the group's polylines, then its faces.
pub open spec fn group_text(g: GroupModel) -> Seq<char> {
    seq!['g', ' '] + g.name + seq!['\n'] + lines_text(g.lines) + faces_text(g.polys)
}

pub open spec fn groups_text(gs: Seq<GroupModel>) -> Seq<char>
    decreases gs.len(),
{
    if gs.len() == 0 {
        seq![]
    } else {
        groups_text(gs.drop_last()) + group_text(gs.last())
    }
}

/// An `o` line, then the object's groups.
pub open spec fn object_text(o: ObjectModel) -> Seq<char> {
    seq!['o', ' '] + o.name + seq!['\n'] + groups_text(o.groups)
}

pub open spec fn objects_text(os: Seq<ObjectModel>) -> Seq<char>
    decreases os.len(),
{
    if os.len() == 0 {
        seq![]
    } else {
        objects_text(os.drop_last()) + object_text(os.last())
    }
}

/// One `v` line per position.
pub open spec fn positions_text(ps: Seq<Seq<Seq<char>>>) -> Seq<char>
    decreases ps.len(),
{
    if ps.len() == 0 {
        seq![]
    } else {
        positions_text(ps.drop_last()) + seq!['v', ' '] + join_spaced(ps.last()) + seq!['\n']
    }
}

/// The text of a model: the header, the positions, then the objects.
pub open spec fn obj_text(m: ObjModel) -> Seq<char> {
    header_text() + positions_text(m.position) + objects_text(m.objects)
}

fn push_index(out: &mut Vec<char>, i: usize)
    ensures
        final(out)@ == old(out)@ + index_text(i),
{
    push_decimal(out, i as u128 + 1);
}

impl LineTuple {
    /// The text of this vertex: `p` or `p/t`, one-based.
    pub fn to_text(&self) -> (r: String)
        ensures
            r@ == line_ref_text(*self),
    {
        let mut out: Vec<char> = Vec::new();
        write_line_ref(&mut out, *self);
        string_from_chars(&out)
    }
}

impl IndexTuple {
    /// The text of this vertex: `p`, `p/t`, `p//n` or `p/t/n`, one-based.
    pub fn to_text(&self) -> (r: String)
        ensures
            r@ == face_ref_text(*self),
    {
        let mut out: Vec<char> = Vec::new();
        write_face_ref(&mut out, *self);
        string_from_chars(&out)
    }
}

fn write_line_ref(out: &mut Vec<char>, r: LineTuple)
    ensures
        final(out)@ == old(out)@ + line_ref_text(r),
{
    push_index(out, r.0);
    if let Some(t) = r.1 {
        out.push('/');
        push_index(out, t);
    }
    assert(final(out)@ =~= old(out)@ + line_ref_text(r));
}

fn write_face_ref(out: &mut Vec<char>, r: IndexTuple)
    ensures
        final(out)@ == old(out)@ + face_ref_text(r),
{
    push_index(out, r.0);
    match (r.1, r.2) {
        (Some(t), Some(n)) => {
            out.push('/');
            push_index(out, t);
            out.push('/');
            push_index(out, n);
        },
        (Some(t), None) => {
            out.push('/');
            push_index(out, t);
        },
        (None, Some(n)) => {
            out.push('/');
            out.push('/');
            push_index(out, n);
        },
        (None, None) => {},
    }
    assert(final(out)@ =~= old(out)@ + face_ref_text(r));
}

fn write_line(out: &mut Vec<char>, l: &Line)
    ensures
        final(out)@ == old(out)@ + seq!['l'] + line_refs_text(l.0@) + seq!['\n'],
{
    out.push('l');
    let ghost start = out@;
    let mut i: usize = 0;
    assert(l.0@.take(0) =~= seq![]);
    assert(out@ =~= start + line_refs_text(l.0@.take(0)));
    while i < l.0.len()
        invariant
            i <= l.0@.len(),
            out@ == start + line_refs_text(l.0@.take(i as int)),
        decreases l.0@.len() - i,
    {
        assert(l.0@.take(i + 1).drop_last() =~= l.0@.take(i as int));
        out.push(' ');
        write_line_ref(out, l.0[i]);
        i += 1;
        assert(out@ =~= start + line_refs_text(l.0@.take(i as int)));
    }
    assert(l.0@.take(i as int) =~= l.0@);
    out.push('\n');
    assert(final(out)@ =~= old(out)@ + seq!['l'] + line_refs_text(l.0@) + seq!['\n']);
}

fn write_face(out: &mut Vec<char>, f: &SimplePolygon)
    ensures
        final(out)@ == old(out)@ + seq!['f'] + face_refs_text(f.0@) + seq!['\n'],
{
    out.push('f');
    let ghost start = out@;
    let mut i: usize = 0;
    assert(f.0@.take(0) =~= seq![]);
    assert(out@ =~= start + face_refs_text(f.0@.take(0)));
    while i < f.0.len()
        invariant
            i <= f.0@.len(),
            out@ == start + face_refs_text(f.0@.take(i as int)),
        decreases f.0@.len() - i,
    {
        assert(f.0@.take(i + 1).drop_last() =~= f.0@.take(i as int));
        out.push(' ');
        write_face_ref(out, f.0[i]);
        i += 1;
        assert(out@ =~= start + face_refs_text(f.0@.take(i as int)));
    }
    assert(f.0@.take(i as int) =~= f.0@);
    out.push('\n');
    assert(final(out)@ =~= old(out)@ + seq!['f'] + face_refs_text(f.0@) + seq!['\n']);
}

fn write_group(out: &mut Vec<char>, g: &Group)
    ensures
        final(out)@ == old(out)@ + group_text(g@),
{
    let ghost m = g@;
    out.push('g');
    out.push(' ');
    let name = crate::text::chars_of(g.name.as_str());
    append_chars(out, &name);
    out.push('\n');
    let ghost start = out@;
    let mut i: usize = 0;
    assert(m.lines.take(0) =~= seq![]);
    assert(out@ =~= start + lines_text(m.lines.take(0)));
    while i < g.lines.len()
        invariant
            m == g@,
            i <= g.lines@.len(),
            out@ == start + lines_text(m.lines.take(i as int)),
        decreases g.lines@.len() - i,
    {
        assert(m.lines.take(i + 1).drop_last() =~= m.lines.take(i as int));
        assert(m.lines[i as int] == g.lines@[i as int].0@);
        write_line(out, &g.lines[i]);
        i += 1;
        assert(out@ =~= start + lines_text(m.lines.take(i as int)));
    }
    assert(m.lines.take(i as int) =~= m.lines);
    let ghost mid = out@;
    let mut j: usize = 0;
    assert(m.polys.take(0) =~= seq![]);
    assert(out@ =~= mid + faces_text(m.polys.take(0)));
    while j < g.polys.len()
        invariant
            m == g@,
            j <= g.polys@.len(),
            out@ == mid + faces_text(m.polys.take(j as int)),
        decreases g.polys@.len() - j,
    {
        assert(m.polys.take(j + 1).drop_last() =~= m.polys.take(j as int));
        assert(m.polys[j as int] == g.polys@[j as int].0@);
        write_face(out, &g.polys[j]);
        j += 1;
        assert(out@ =~= mid + faces_text(m.polys.take(j as int)));
    }
    assert(m.polys.take(j as int) =~= m.polys);
    assert(final(out)@ =~= old(out)@ + group_text(g@));
}

fn write_object(out: &mut Vec<char>, o: &Object)
    ensures
        final(out)@ == old(out)@ + object_text(o@),
{
    let ghost m = o@;
    out.push('o');
    out.push(' ');
    let name = crate::text::chars_of(o.name.as_str());
    append_chars(out, &name);
    out.push('\n');
    let ghost start = out@;
    let mut i: usize = 0;
    assert(m.groups.take(0) =~= seq![]);
    assert(out@ =~= start + groups_text(m.groups.take(0)));
    while i < o.groups.len()
        invariant
            m == o@,
            i <= o.groups@.len(),
            out@ == start + groups_text(m.groups.take(i as int)),
        decreases o.groups@.len() - i,
    {
        assert(m.groups.take(i + 1).drop_last() =~= m.groups.take(i as int));
        write_group(out, &o.groups[i]);
        i += 1;
        assert(out@ =~= start + groups_text(m.groups.take(i as int)));
    }
    assert(m.groups.take(i as int) =~= m.groups);
    assert(final(out)@ =~= old(out)@ + object_text(o@));
}

fn write_position(out: &mut Vec<char>, p: &[Real; 3])
    ensures
        final(out)@ == old(out)@ + seq!['v', ' '] + join_spaced(triple(*p)) + seq!['\n'],
{
    out.push('v');
    out.push(' ');
    let x = crate::text::chars_of(p[0].as_str());
    let y = crate::text::chars_of(p[1].as_str());
    let z = crate::text::chars_of(p[2].as_str());
    append_chars(out, &x);
    out.push(' ');
    append_chars(out, &y);
    out.push(' ');
    append_chars(out, &z);
    out.push('\n');
    let ghost t = triple(*p);
    assert(t.drop_last().drop_last() =~= seq![t[0]]);
    assert(t.drop_last().last() == t[1]);
    assert(join_spaced(t.drop_last().drop_last()) == t[0]);
    assert(join_spaced(t.drop_last()) == t[0] + seq![' '] + t[1]);
    assert(join_spaced(t) == t[0] + seq![' '] + t[1] + seq![' '] + t[2]);
    assert(final(out)@ =~= old(out)@ + seq!['v', ' '] + join_spaced(t) + seq!['\n']);
}

fn header() -> (r: Vec<char>)
    ensures
        r@ == header_text(),
{
    crate::text::chars_of("# Generated by the obj Rust library (https://crates.io/crates/obj).\n")
}

impl ObjData {
    /// The text of the model: a header comment, one `v` line per position,
    /// then for each object an `o` line and for each of its groups a `g`
    /// line, its `l` lines and its `f` lines.
    pub fn write_to_string(&self) -> (r: String)
        ensures
            r@ == obj_text(self@),
    {
        let ghost m = self@;
        let mut out = header();
        let ghost start = out@;
        let mut i: usize = 0;
        assert(m.position.take(0) =~= seq![]);
        assert(out@ =~= start + positions_text(m.position.take(0)));
        while i < self.position.len()
            invariant
                m == self@,
                i <= self.position@.len(),
                out@ == start + positions_text(m.position.take(i as int)),
            decreases self.position@.len() - i,
        {
            assert(m.position.take(i + 1).drop_last() =~= m.position.take(i as int));
            write_position(&mut out, &self.position[i]);
            i += 1;
            assert(out@ =~= start + positions_text(m.position.take(i as int)));
        }
        assert(m.position.take(i as int) =~= m.position);
        let ghost mid = out@;
        let mut j: usize = 0;
        assert(m.objects.take(0) =~= seq![]);
        assert(out@ =~= mid + objects_text(m.objects.take(0)));
        while j < self.objects.len()
            invariant
                m == self@,
                j <= self.objects@.len(),
                out@ == mid + objects_text(m.objects.take(j as int)),
            decreases self.objects@.len() - j,
        {
            assert(m.objects.take(j + 1).drop_last() =~= m.objects.take(j as int));
            write_object(&mut out, &self.objects[j]);
            j += 1;
            assert(out@ =~= mid + objects_text(m.objects.take(j as int)));
        }
        assert(m.objects.take(j as int) =~= m.objects);
        assert(out@ =~= obj_text(self@));
        string_from_chars(&out)
    }
}

proof fn lemma_numeral_has_no_slash(i: usize)
    ensures
        index_text(i).len() > 0,
        forall|j: int| 0 <= j < index_text(i).len() ==> #[trigger] index_text(i)[j] != '/',
{
    lemma_decimal_digits((i + 1) as nat);
    assert forall|j: int| 0 <= j < index_text(i).len() implies #[trigger] index_text(i)[j] != '/' by {
        assert(is_digit(index_text(i)[j]));
    }
}

/// A written index reads back as the index.
proof fn lemma_numeral_resolves(i: usize, len: int)
    requires
        i < i64::MAX,
    ensures
        resolve_text(index_text(i), len) == Some(i as int),
{
    lemma_decimal_literal((i + 1) as nat);
    assert(integer_in(index_text(i), i64::MIN as int, i64::MAX as int) == Some(i + 1));
}

/// Splitting at slashes: a leading run without slashes joins the piece being read.
proof fn lemma_pieces_prefix(a: Seq<char>, rest: Seq<char>, cur: Seq<char>)
    requires
        forall|j: int| 0 <= j < a.len() ==> #[trigger] a[j] != '/',
    ensures
        pieces_from(a + rest, cur) == pieces_from(rest, cur + a),
    decreases a.len(),
{
    if a.len() > 0 {
        let t = a.drop_first();
        assert forall|j: int| 0 <= j < t.len() implies #[trigger] t[j] != '/' by {
            assert(t[j] == a[j + 1]);
        }
        assert((a + rest)[0] == a[0]);
        assert((a + rest).drop_first() =~= t + rest);
        lemma_pieces_prefix(t, rest, cur.push(a[0]));
        assert(cur.push(a[0]) + t =~= cur + a);
    } else {
        assert(a + rest =~= rest);
        assert(cur + a =~= cur);
    }
}

proof fn lemma_pieces_slash(rest: Seq<char>, cur: Seq<char>)
    ensures
        pieces_from(seq!['/'] + rest, cur) == seq![cur] + pieces_from(rest, seq![]),
{
    assert((seq!['/'] + rest).drop_first() =~= rest);
}

/// The pieces of a numeral, then of a slash and what follows.
proof fn lemma_pieces_numeral_then(i: usize, rest: Seq<char>)
    ensures
        pieces_from(index_text(i) + seq!['/'] + rest, seq![]) == seq![index_text(i)] + pieces_from(rest, seq![]),
{
    lemma_numeral_has_no_slash(i);
    assert(index_text(i) + seq!['/'] + rest =~= index_text(i) + (seq!['/'] + rest));
    lemma_pieces_prefix(index_text(i), seq!['/'] + rest, seq![]);
    assert(Seq::<char>::empty() + index_text(i) =~= index_text(i));
    lemma_pieces_slash(rest, index_text(i));
}

proof fn lemma_pieces_numeral(i: usize)
    ensures
        pieces_from(index_text(i), seq![]) == seq![index_text(i)],
{
    lemma_numeral_has_no_slash(i);
    lemma_pieces_without_slash(index_text(i), seq![]);
    assert(Seq::<char>::empty() + index_text(i) =~= index_text(i));
}

/// The written form of a face vertex reads back as that vertex, whatever
/// the lengths of the attribute arrays, for indices below `i64::MAX`.
pub proof fn lemma_face_ref_reads_back(r: IndexTuple, np: int, nt: int, nn: int)
    requires
        r.0 < i64::MAX,
        r.1 matches Some(t) ==> t < i64::MAX,
        r.2 matches Some(n) ==> n < i64::MAX,
    ensures
        vertex_ref(face_ref_text(r), np, nt, nn) == Some(r),
        r.2 is None ==> !has_normal_part(face_ref_text(r)),
{
    lemma_numeral_resolves(r.0, np);
    let p = index_text(r.0);
    match (r.1, r.2) {
        (Some(t), Some(n)) => {
            lemma_numeral_resolves(t, nt);
            lemma_numeral_resolves(n, nn);
            let txt = face_ref_text(r);
            assert(txt =~= p + seq!['/'] + (index_text(t) + seq!['/'] + index_text(n)));
            lemma_pieces_numeral_then(r.0, index_text(t) + seq!['/'] + index_text(n));
            lemma_pieces_numeral_then(t, index_text(n));
            lemma_pieces_numeral(n);
            assert(slash_pieces(txt) =~= seq![p, index_text(t), index_text(n)]);
            lemma_numeral_has_no_slash(t);
        },
        (Some(t), None) => {
            lemma_numeral_resolves(t, nt);
            let txt = face_ref_text(r);
            assert(txt =~= p + seq!['/'] + index_text(t));
            lemma_pieces_numeral_then(r.0, index_text(t));
            lemma_pieces_numeral(t);
            assert(slash_pieces(txt) =~= seq![p, index_text(t)]);
        },
        (None, Some(n)) => {
            lemma_numeral_resolves(n, nn);
            let txt = face_ref_text(r);
            assert(txt =~= p + seq!['/'] + (seq!['/'] + index_text(n)));
            lemma_pieces_numeral_then(r.0, seq!['/'] + index_text(n));
            lemma_pieces_slash(index_text(n), seq![]);
            lemma_pieces_numeral(n);
            assert(slash_pieces(txt) =~= seq![p, Seq::<char>::empty(), index_text(n)]);
        },
        (None, None) => {
            let txt = face_ref_text(r);
            assert(txt =~= p);
            lemma_pieces_numeral(r.0);
        },
    }
}

pub open spec fn digits_or_slashes(s: Seq<char>) -> bool {
    forall|i: int| 0 <= i < s.len() ==> is_digit(#[trigger] s[i]) || s[i] == '/'
}

proof fn lemma_concat_digits_or_slashes(a: Seq<char>, b: Seq<char>)
    requires
        digits_or_slashes(a),
        digits_or_slashes(b),
    ensures
        digits_or_slashes(a + b),
{
    assert forall|i: int| 0 <= i < (a + b).len() implies is_digit(#[trigger] (a + b)[i]) || (a + b)[i] == '/' by {
        if i < a.len() {
            assert((a + b)[i] == a[i]);
        } else {
            assert((a + b)[i] == b[i - a.len()]);
        }
    }
}

proof fn lemma_numeral_digits(i: usize)
    ensures
        digits_or_slashes(index_text(i)),
        index_text(i).len() > 0,
{
    lemma_decimal_digits((i + 1) as nat);
}

/// A written face vertex is a token.
proof fn lemma_face_ref_is_token(r: IndexTuple)
    ensures
        is_token(face_ref_text(r)),
{
    lemma_numeral_digits(r.0);
    let slash = seq!['/'];
    assert(digits_or_slashes(slash));
    assert(digits_or_slashes(Seq::<char>::empty()));
    let tail = match (r.1, r.2) {
        (Some(t), Some(n)) => seq!['/'] + index_text(t) + seq!['/'] + index_text(n),
        (Some(t), None) => seq!['/'] + index_text(t),
        (None, Some(n)) => seq!['/', '/'] + index_text(n),
        (None, None) => seq![],
    };
    match (r.1, r.2) {
        (Some(t), Some(n)) => {
            lemma_numeral_digits(t);
            lemma_numeral_digits(n);
            lemma_concat_digits_or_slashes(slash, index_text(t));
            lemma_concat_digits_or_slashes(slash + index_text(t), slash);
            lemma_concat_digits_or_slashes(slash + index_text(t) + slash, index_text(n));
        },
        (Some(t), None) => {
            lemma_numeral_digits(t);
            lemma_concat_digits_or_slashes(slash, index_text(t));
        },
        (None, Some(n)) => {
            lemma_numeral_digits(n);
            assert(digits_or_slashes(seq!['/', '/']));
            lemma_concat_digits_or_slashes(seq!['/', '/'], index_text(n));
        },
        (None, None) => {},
    }
    assert(face_ref_text(r) == index_text(r.0) + tail);
    lemma_concat_digits_or_slashes(index_text(r.0), tail);
    let txt = face_ref_text(r);
    assert forall|i: int| 0 <= i < txt.len() implies !is_ws(#[trigger] txt[i]) by {
        assert(is_digit(txt[i]) || txt[i] == '/');
    }
}

pub open spec fn face_ref_texts(rs: Seq<IndexTuple>) -> Seq<Seq<char>> {
    rs.map_values(|r: IndexTuple| face_ref_text(r))
}

/// A written `f` line is the directive and the written vertices, joined by spaces.
proof fn lemma_face_line_joined(rs: Seq<IndexTuple>)
    ensures
        seq!['f'] + face_refs_text(rs) == join_spaced(seq![seq!['f']] + face_ref_texts(rs)),
    decreases rs.len(),
{
    let x = seq![seq!['f']] + face_ref_texts(rs);
    if rs.len() == 0 {
        assert(x =~= seq![seq!['f']]);
        assert(seq!['f'] + face_refs_text(rs) =~= seq!['f']);
    } else {
        lemma_face_line_joined(rs.drop_last());
        assert(x.drop_last() =~= seq![seq!['f']] + face_ref_texts(rs.drop_last()));
        assert(x.last() == face_ref_text(rs.last()));
        assert(seq!['f'] + face_refs_text(rs) =~= (seq!['f'] + face_refs_text(rs.drop_last())) + seq![' ']
            + face_ref_text(rs.last()));
    }
}

/// Written vertices read back as the vertices.
proof fn lemma_face_refs_read_back(rs: Seq<IndexTuple>, np: int, nt: int, nn: int)
    requires
        forall|i: int| 0 <= i < rs.len() ==> small_ref(#[trigger] rs[i]),
    ensures
        refs_of(face_ref_texts(rs), np, nt, nn) == Ok::<Seq<IndexTuple>, Seq<char>>(rs),
    decreases rs.len(),
{
    if rs.len() > 0 {
        let init = rs.drop_last();
        assert forall|i: int| 0 <= i < init.len() implies small_ref(#[trigger] init[i]) by {
            assert(init[i] == rs[i]);
        }
        lemma_face_refs_read_back(init, np, nt, nn);
        let x = face_ref_texts(rs);
        assert(x.drop_last() =~= face_ref_texts(init));
        assert(x.last() == face_ref_text(rs.last()));
        assert(small_ref(rs[rs.len() - 1]));
        lemma_face_ref_reads_back(rs.last(), np, nt, nn);
        assert(init.push(rs.last()) =~= rs);
        assert(refs_of(x, np, nt, nn) == Ok::<Seq<IndexTuple>, Seq<char>>(init.push(rs.last())));
    } else {
        assert(face_ref_texts(rs) =~= seq![]);
        assert(rs =~= seq![]);
    }
}

/// Every index of the vertex is below `i64::MAX`, so that it reads back.
pub open spec fn small_ref(r: IndexTuple) -> bool {
    &&& r.0 < i64::MAX
    &&& r.1 matches Some(t) ==> t < i64::MAX
    &&& r.2 matches Some(n) ==> n < i64::MAX
}

/// A written face line, read at any point of a file, appends that face to
/// the open group and changes nothing else.
pub proof fn lemma_face_line_reads_back(st: ObjProgress, rs: Seq<IndexTuple>, ln: int)
    requires
        rs.len() >= 3,
        forall|i: int| 0 <= i < rs.len() ==> small_ref(#[trigger] rs[i]),
    ensures
        obj_step(st, tokens(seq!['f'] + face_refs_text(rs)), ln) == Ok::<ObjProgress, ObjFault>(
            ObjProgress { group: GroupModel { polys: st.group.polys.push(rs), ..st.group }, ..st },
        ),
{
    let toks = seq![seq!['f']] + face_ref_texts(rs);
    lemma_face_line_joined(rs);
    assert forall|i: int| 0 <= i < toks.len() implies is_token(#[trigger] toks[i]) by {
        if i == 0 {
            assert(toks[0] == seq!['f']);
        } else {
            assert(toks[i] == face_ref_text(rs[i - 1]));
            lemma_face_ref_is_token(rs[i - 1]);
        }
    }
    lemma_tokens_of_join(toks);
    assert(toks.drop_first() =~= face_ref_texts(rs));
    reveal_strlit("v");
    reveal_strlit("vt");
    reveal_strlit("vn");
    reveal_strlit("o");
    reveal_strlit("g");
    reveal_strlit("f");
    assert("f"@ =~= seq!['f']);
    assert(directive_of(toks[0]) == Directive::Face);
    lemma_face_refs_read_back(rs, st.data.position.len() as int, st.data.texture.len() as int, st.data.normal.len() as int);
}

pub open spec fn as_face_refs(ls: Seq<LineTuple>) -> Seq<IndexTuple> {
    ls.map_values(|r: LineTuple| IndexTuple(r.0, r.1, None))
}

proof fn lemma_line_refs_as_face(ls: Seq<LineTuple>)
    ensures
        line_refs_text(ls) == face_refs_text(as_face_refs(ls)),
    decreases ls.len(),
{
    if ls.len() > 0 {
        lemma_line_refs_as_face(ls.drop_last());
        assert(as_face_refs(ls).drop_last() =~= as_face_refs(ls.drop_last()));
        let r = ls.last();
        assert(as_face_refs(ls).last() == IndexTuple(r.0, r.1, None));
        assert(line_ref_text(r) =~= face_ref_text(IndexTuple(r.0, r.1, None)));
    }
}

/// A written polyline line, read at any point of a file, appends that
/// polyline to the open group and changes nothing else.
pub proof fn lemma_line_line_reads_back(st: ObjProgress, ls: Seq<LineTuple>, ln: int)
    requires
        ls.len() >= 2,
        forall|i: int| 0 <= i < ls.len() ==> (#[trigger] ls[i]).0 < i64::MAX && (ls[i].1 matches Some(t) ==> t < i64::MAX),
    ensures
        obj_step(st, tokens(seq!['l'] + line_refs_text(ls)), ln) == Ok::<ObjProgress, ObjFault>(
            ObjProgress { group: GroupModel { lines: st.group.lines.push(ls), ..st.group }, ..st },
        ),
{
    let rs = as_face_refs(ls);
    lemma_line_refs_as_face(ls);
    assert forall|i: int| 0 <= i < rs.len() implies small_ref(#[trigger] rs[i]) by {
        assert(rs[i] == IndexTuple(ls[i].0, ls[i].1, None));
        assert(ls[i].0 < i64::MAX);
    }
    let toks = seq![seq!['l']] + face_ref_texts(rs);
    assert(seq!['l'] + face_refs_text(rs) == join_spaced(toks)) by {
        lemma_face_line_joined(rs);
        assert((seq![seq!['f']] + face_ref_texts(rs)).drop_first() =~= face_ref_texts(rs));
        lemma_join_head(seq!['f'], face_ref_texts(rs));
        lemma_join_head(seq!['l'], face_ref_texts(rs));
        let j = join_spaced(face_ref_texts(rs));
        if rs.len() > 0 {
            assert(face_refs_text(rs) =~= (seq!['f'] + face_refs_text(rs)).skip(1));
            assert((seq!['f'] + seq![' '] + j).skip(1) =~= seq![' '] + j);
            assert(seq!['l'] + face_refs_text(rs) =~= seq!['l'] + seq![' '] + j);
        } else {
            assert(face_refs_text(rs) =~= (seq!['f'] + face_refs_text(rs)).skip(1));
            assert(seq!['l'] + face_refs_text(rs) =~= seq!['l']);
        }
    }
    assert forall|i: int| 0 <= i < toks.len() implies is_token(#[trigger] toks[i]) by {
        if i == 0 {
            assert(toks[0] == seq!['l']);
        } else {
            assert(toks[i] == face_ref_text(rs[i - 1]));
            lemma_face_ref_is_token(rs[i - 1]);
        }
    }
    lemma_tokens_of_join(toks);
    assert(toks.drop_first() =~= face_ref_texts(rs));
    reveal_strlit("v");
    reveal_strlit("vt");
    reveal_strlit("vn");
    reveal_strlit("o");
    reveal_strlit("g");
    reveal_strlit("f");
    reveal_strlit("l");
    assert("l"@ =~= seq!['l']);
    assert(directive_of(toks[0]) == Directive::Polyline);
    lemma_face_refs_read_back(rs, st.data.position.len() as int, st.data.texture.len() as int, st.data.normal.len() as int);
    assert forall|i: int| 0 <= i < toks.drop_first().len() implies !has_normal_part(#[trigger] toks.drop_first()[i]) by {
        assert(toks.drop_first()[i] == face_ref_text(rs[i]));
        assert(rs[i].2 is None);
        lemma_face_ref_reads_back(rs[i], 0, 0, 0);
    }
    assert(!any_normal_part(toks.drop_first()));
    assert(line_of(rs) =~= ls);
}

/// Joining with a first token in front.
proof fn lemma_join_head(a: Seq<char>, ts: Seq<Seq<char>>)
    ensures
        ts.len() > 0 ==> join_spaced(seq![a] + ts) == a + seq![' '] + join_spaced(ts),
        ts.len() == 0 ==> join_spaced(seq![a] + ts) == a,
    decreases ts.len(),
{
    if ts.len() == 0 {
        assert(seq![a] + ts =~= seq![a]);
    } else if ts.len() == 1 {
        assert((seq![a] + ts).drop_last() =~= seq![a]);
        assert((seq![a] + ts).last() == ts[0]);
        assert(join_spaced(seq![a]) == a);
    } else {
        lemma_join_head(a, ts.drop_last());
        assert((seq![a] + ts).drop_last() =~= seq![a] + ts.drop_last());
        assert((seq![a] + ts).last() == ts.last());
        assert(a + seq![' '] + join_spaced(ts.drop_last()) + seq![' '] + ts.last() =~= a + seq![' '] + (
        join_spaced(ts.drop_last()) + seq![' '] + ts.last()));
    }
}

/// The tokens of a line that starts with a one-letter directive and a space.
pub proof fn lemma_tokens_after_directive(c: char, rest: Seq<char>)
    requires
        !is_ws(c),
    ensures
        tokens(seq![c, ' '] + rest) == seq![seq![c]] + tokens(rest),
{
    assert(seq![c, ' '] + rest =~= seq![c] + seq![' '] + rest);
    lemma_tokens_space(seq![c], rest, seq![]);
    lemma_tokens_word(seq![c], seq![]);
    assert(Seq::<char>::empty() + seq![c] =~= seq![c]);
}

/// A written position line, read at any point of a file, appends that
/// position and changes nothing else.
pub proof fn lemma_position_line_reads_back(st: ObjProgress, p: Seq<Seq<char>>, ln: int)
    requires
        p.len() == 3,
        forall|i: int| 0 <= i < 3 ==> is_float_literal(#[trigger] p[i]),
    ensures
        obj_step(st, tokens(seq!['v', ' '] + join_spaced(p)), ln) == Ok::<ObjProgress, ObjFault>(
            ObjProgress { data: ObjModel { position: st.data.position.push(p), ..st.data }, ..st },
        ),
{
    assert forall|i: int| 0 <= i < p.len() implies is_token(#[trigger] p[i]) by {
        lemma_float_literal_is_token(p[i]);
    }
    lemma_tokens_of_join(p);
    lemma_tokens_after_directive('v', join_spaced(p));
    let toks = seq![seq!['v']] + p;
    assert(toks.drop_first() =~= p);
    reveal_strlit("v");
    assert("v"@ =~= seq!['v']);
    assert(directive_of(toks[0]) == Directive::Vertex);
    assert(are_floats(p, 3, 3));
}

/// A name as the reader stores it: non-empty tokens joined by single spaces.
pub open spec fn is_plain_name(name: Seq<char>) -> bool {
    tokens(name).len() > 0 && join_spaced(tokens(name)) == name
}

/// A written `o` line, read at any point of a file, closes the open group
/// and object and opens an object of that name.
pub proof fn lemma_object_line_reads_back(st: ObjProgress, name: Seq<char>, ln: int)
    requires
        is_plain_name(name),
    ensures
        obj_step(st, tokens(seq!['o', ' '] + name), ln) == Ok::<ObjProgress, ObjFault>(
            ObjProgress {
                data: ObjModel {
                    objects: close_object(st.data.objects, close_group(st.object, st.group)),
                    ..st.data
                },
                object: ObjectModel { name, groups: seq![] },
                group: new_group(default_name()),
            },
        ),
{
    lemma_tokens_after_directive('o', name);
    let toks = seq![seq!['o']] + tokens(name);
    assert(toks.drop_first() =~= tokens(name));
    reveal_strlit("v");
    reveal_strlit("vt");
    reveal_strlit("vn");
    reveal_strlit("o");
    assert("o"@ =~= seq!['o']);
    assert(toks[0] == seq!['o']);
    assert(toks[0][0] != "v"@[0]);
    assert(toks[0].len() != "vt"@.len() && toks[0].len() != "vn"@.len());
    assert(directive_of(toks[0]) == Directive::Object);
    assert(name_of(tokens(name)) == name);
}

/// A written `g` line, read at any point of a file, closes the open group
/// and opens a group of that name.
pub proof fn lemma_group_line_reads_back(st: ObjProgress, name: Seq<char>, ln: int)
    requires
        is_plain_name(name),
    ensures
        obj_step(st, tokens(seq!['g', ' '] + name), ln) == Ok::<ObjProgress, ObjFault>(
            ObjProgress { object: close_group(st.object, st.group), group: new_group(name), ..st },
        ),
{
    lemma_tokens_after_directive('g', name);
    let toks = seq![seq!['g']] + tokens(name);
    assert(toks.drop_first() =~= tokens(name));
    reveal_strlit("v");
    reveal_strlit("vt");
    reveal_strlit("vn");
    reveal_strlit("o");
    reveal_strlit("g");
    assert("g"@ =~= seq!['g']);
    assert(toks[0] == seq!['g']);
    assert(toks[0][0] != "v"@[0] && toks[0][0] != "o"@[0]);
    assert(toks[0].len() != "vt"@.len() && toks[0].len() != "vn"@.len());
    assert(directive_of(toks[0]) == Directive::Group);
    assert(name_of(tokens(name)) == name);
}

} // verus!
