//! Reading back what the writer wrote.
use vstd::prelude::*;
use crate::number::is_float_literal;
use crate::obj::{
    close_group, close_object, default_name, directive_of, empty_model, finish, has_primitives,
    are_floats, lemma_error_persists, line_of, name_of, refs_of, resolve_text, vertex_ref,
    new_group, obj_parse, obj_prefix, obj_step, Directive, GroupModel, IndexTuple, LineTuple,
    ObjFault, ObjModel, ObjProgress, ObjectModel,
};
use crate::mtl::is_comment;
use crate::text::{is_token, is_ws, join_spaced, lemma_tokens_are_tokens, lemma_tokens_of_join, lemma_tokens_word, tokens};
use crate::write::{
    face_refs_text, faces_text, group_text, groups_text, header_text, is_plain_name, lines_text,
    obj_text, object_text, objects_text, positions_text, lemma_face_line_reads_back,
    lemma_group_line_reads_back, lemma_line_line_reads_back, lemma_object_line_reads_back,
    lemma_position_line_reads_back, lemma_tokens_after_directive, line_refs_text, small_ref,
};

verus! {

/// The parser run from `st` over `ls`, whose first line is number `base + 1`.
pub open spec fn obj_run(st: ObjProgress, ls: Seq<Seq<char>>, base: int) -> Result<ObjProgress, ObjFault>
    decreases ls.len(),
{
    if ls.len() == 0 {
        Ok(st)
    } else {
        match obj_run(st, ls.drop_last(), base) {
            Ok(s2) => obj_step(s2, tokens(ls.last()), base + ls.len()),
            Err(e) => Err(e),
        }
    }
}

pub open spec fn initial_progress() -> ObjProgress {
    ObjProgress {
        data: empty_model(),
        object: ObjectModel { name: default_name(), groups: seq![] },
        group: new_group(default_name()),
    }
}

proof fn lemma_prefix_is_run(ls: Seq<Seq<char>>, n: nat)
    requires
        n <= ls.len(),
    ensures
        obj_prefix(ls, n) == obj_run(initial_progress(), ls.take(n as int), 0),
    decreases n,
{
    if n > 0 {
        lemma_prefix_is_run(ls, (n - 1) as nat);
        assert(ls.take(n as int).drop_last() =~= ls.take(n - 1));
        assert(ls.take(n as int).last() == ls[n - 1]);
    } else {
        assert(ls.take(0) =~= seq![]);
    }
}

proof fn lemma_run_append(st: ObjProgress, a: Seq<Seq<char>>, b: Seq<Seq<char>>, base: int)
    requires
        obj_run(st, a, base) is Ok,
    ensures
        obj_run(st, a + b, base) == obj_run(obj_run(st, a, base)->Ok_0, b, base + a.len()),
    decreases b.len(),
{
    if b.len() == 0 {
        assert(a + b =~= a);
    } else {
        lemma_run_append(st, a, b.drop_last(), base);
        assert((a + b).drop_last() =~= a + b.drop_last());
        assert((a + b).last() == b.last());
    }
}

pub open spec fn position_line(p: Seq<Seq<char>>) -> Seq<char> {
    seq!['v', ' '] + join_spaced(p)
}

pub open spec fn position_lines(ps: Seq<Seq<Seq<char>>>) -> Seq<Seq<char>> {
    ps.map_values(|p: Seq<Seq<char>>| position_line(p))
}

pub open spec fn polyline_lines(ls: Seq<Seq<LineTuple>>) -> Seq<Seq<char>> {
    ls.map_values(|l: Seq<LineTuple>| seq!['l'] + line_refs_text(l))
}

pub open spec fn face_lines(fs: Seq<Seq<IndexTuple>>) -> Seq<Seq<char>> {
    fs.map_values(|f: Seq<IndexTuple>| seq!['f'] + face_refs_text(f))
}

pub open spec fn group_lines(g: GroupModel) -> Seq<Seq<char>> {
    seq![seq!['g', ' '] + g.name] + polyline_lines(g.lines) + face_lines(g.polys)
}

pub open spec fn groups_lines(gs: Seq<GroupModel>) -> Seq<Seq<char>>
    decreases gs.len(),
{
    if gs.len() == 0 {
        seq![]
    } else {
        groups_lines(gs.drop_last()) + group_lines(gs.last())
    }
}

pub open spec fn object_lines(o: ObjectModel) -> Seq<Seq<char>> {
    seq![seq!['o', ' '] + o.name] + groups_lines(o.groups)
}

pub open spec fn objects_lines(os: Seq<ObjectModel>) -> Seq<Seq<char>>
    decreases os.len(),
{
    if os.len() == 0 {
        seq![]
    } else {
        objects_lines(os.drop_last()) + object_lines(os.last())
    }
}

/// The lines of the written text of `m`, without their line breaks.
pub open spec fn written_lines(m: ObjModel) -> Seq<Seq<char>> {
    seq![header_text().drop_last()] + position_lines(m.position) + objects_lines(m.objects)
}

proof fn lemma_positions_run(st: ObjProgress, ps: Seq<Seq<Seq<char>>>, base: int)
    requires
        forall|i: int| 0 <= i < ps.len() ==> (#[trigger] ps[i]).len() == 3 && forall|j: int|
            0 <= j < 3 ==> is_float_literal(#[trigger] ps[i][j]),
    ensures
        obj_run(st, position_lines(ps), base) == Ok::<ObjProgress, ObjFault>(
            ObjProgress { data: ObjModel { position: st.data.position + ps, ..st.data }, ..st },
        ),
    decreases ps.len(),
{
    if ps.len() == 0 {
        assert(st.data.position + ps =~= st.data.position);
        assert(position_lines(ps) =~= seq![]);
    } else {
        let init = ps.drop_last();
        lemma_positions_run(st, init, base);
        assert(position_lines(ps).drop_last() =~= position_lines(init));
        let p = ps.last();
        assert(ps[ps.len() - 1].len() == 3);
        assert forall|j: int| 0 <= j < 3 implies is_float_literal(#[trigger] p[j]) by {
            assert(is_float_literal(ps[ps.len() - 1][j]));
        }
        let s2 = ObjProgress { data: ObjModel { position: st.data.position + init, ..st.data }, ..st };
        lemma_position_line_reads_back(s2, p, base + ps.len());
        assert(st.data.position + init + seq![p] =~= st.data.position + ps);
        assert((st.data.position + init).push(p) =~= st.data.position + ps);
    }
}

/// A polyline as the reader accepts it: two vertices or more, indices below `i64::MAX`.
pub open spec fn written_polyline(l: Seq<LineTuple>) -> bool {
    l.len() >= 2 && forall|i: int| 0 <= i < l.len() ==> (#[trigger] l[i]).0 < i64::MAX && (
    l[i].1 matches Some(t) ==> t < i64::MAX)
}

/// A face as the reader accepts it: three vertices or more, indices below `i64::MAX`.
pub open spec fn written_face(f: Seq<IndexTuple>) -> bool {
    f.len() >= 3 && forall|i: int| 0 <= i < f.len() ==> small_ref(#[trigger] f[i])
}

proof fn lemma_run_one(st: ObjProgress, x: Seq<char>, base: int)
    ensures
        obj_run(st, seq![x], base) == obj_step(st, tokens(x), base + 1),
{
    assert(seq![x].drop_last() =~= Seq::<Seq<char>>::empty());
    assert(obj_run(st, seq![x].drop_last(), base) == Ok::<ObjProgress, ObjFault>(st));
    assert(seq![x].last() == x);
}

proof fn lemma_polylines_run(st: ObjProgress, ls: Seq<Seq<LineTuple>>, base: int)
    requires
        forall|i: int| 0 <= i < ls.len() ==> written_polyline(#[trigger] ls[i]),
    ensures
        obj_run(st, polyline_lines(ls), base) == Ok::<ObjProgress, ObjFault>(
            ObjProgress { group: GroupModel { lines: st.group.lines + ls, ..st.group }, ..st },
        ),
    decreases ls.len(),
{
    if ls.len() == 0 {
        assert(st.group.lines + ls =~= st.group.lines);
        assert(polyline_lines(ls) =~= seq![]);
        assert(st.group == GroupModel { lines: st.group.lines + ls, ..st.group });
    } else {
        let init = ls.drop_last();
        lemma_polylines_run(st, init, base);
        assert(polyline_lines(ls).drop_last() =~= polyline_lines(init));
        let l = ls.last();
        assert(written_polyline(ls[ls.len() - 1]));
        let s2 = ObjProgress { group: GroupModel { lines: st.group.lines + init, ..st.group }, ..st };
        lemma_line_line_reads_back(s2, l, base + ls.len());
        assert((st.group.lines + init).push(l) =~= st.group.lines + ls);
    }
}

proof fn lemma_faces_run(st: ObjProgress, fs: Seq<Seq<IndexTuple>>, base: int)
    requires
        forall|i: int| 0 <= i < fs.len() ==> written_face(#[trigger] fs[i]),
    ensures
        obj_run(st, face_lines(fs), base) == Ok::<ObjProgress, ObjFault>(
            ObjProgress { group: GroupModel { polys: st.group.polys + fs, ..st.group }, ..st },
        ),
    decreases fs.len(),
{
    if fs.len() == 0 {
        assert(st.group.polys + fs =~= st.group.polys);
        assert(face_lines(fs) =~= seq![]);
        assert(st.group == GroupModel { polys: st.group.polys + fs, ..st.group });
    } else {
        let init = fs.drop_last();
        lemma_faces_run(st, init, base);
        assert(face_lines(fs).drop_last() =~= face_lines(init));
        let f = fs.last();
        assert(written_face(fs[fs.len() - 1]));
        let s2 = ObjProgress { group: GroupModel { polys: st.group.polys + init, ..st.group }, ..st };
        lemma_face_line_reads_back(s2, f, base + fs.len());
        assert((st.group.polys + init).push(f) =~= st.group.polys + fs);
    }
}

/// A group as the writer writes it and the reader reads it back.
pub open spec fn written_group(g: GroupModel) -> bool {
    &&& is_plain_name(g.name)
    &&& g.material is None
    &&& has_primitives(g)
    &&& forall|i: int| 0 <= i < g.lines.len() ==> written_polyline(#[trigger] g.lines[i])
    &&& forall|i: int| 0 <= i < g.polys.len() ==> written_face(#[trigger] g.polys[i])
}

proof fn lemma_group_run(st: ObjProgress, g: GroupModel, base: int)
    requires
        written_group(g),
    ensures
        obj_run(st, group_lines(g), base) == Ok::<ObjProgress, ObjFault>(
            ObjProgress { object: close_group(st.object, st.group), group: g, ..st },
        ),
{
    let head = seq![seq!['g', ' '] + g.name];
    lemma_run_one(st, seq!['g', ' '] + g.name, base);
    lemma_group_line_reads_back(st, g.name, base + 1);
    let s1 = ObjProgress { object: close_group(st.object, st.group), group: new_group(g.name), ..st };
    lemma_run_append(st, head, polyline_lines(g.lines), base);
    lemma_polylines_run(s1, g.lines, base + 1);
    let s2 = ObjProgress { group: GroupModel { lines: s1.group.lines + g.lines, ..s1.group }, ..s1 };
    lemma_run_append(st, head + polyline_lines(g.lines), face_lines(g.polys), base);
    assert((head + polyline_lines(g.lines)).len() == 1 + g.lines.len());
    lemma_faces_run(s2, g.polys, base + 1 + g.lines.len());
    assert(s1.group.lines + g.lines =~= g.lines);
    assert(s2.group.polys + g.polys =~= g.polys);
    assert(group_lines(g) == head + polyline_lines(g.lines) + face_lines(g.polys));
}

proof fn lemma_groups_run(st: ObjProgress, gs: Seq<GroupModel>, base: int)
    requires
        gs.len() >= 1,
        forall|i: int| 0 <= i < gs.len() ==> written_group(#[trigger] gs[i]),
    ensures
        obj_run(st, groups_lines(gs), base) == Ok::<ObjProgress, ObjFault>(
            ObjProgress {
                object: ObjectModel {
                    groups: close_group(st.object, st.group).groups + gs.drop_last(),
                    ..close_group(st.object, st.group)
                },
                group: gs.last(),
                ..st
            },
        ),
    decreases gs.len(),
{
    let c = close_group(st.object, st.group);
    let init = gs.drop_last();
    assert(written_group(gs[gs.len() - 1]));
    if gs.len() == 1 {
        assert(groups_lines(gs) =~= group_lines(gs.last()));
        lemma_group_run(st, gs.last(), base);
        assert(c.groups + init =~= c.groups);
        assert(c == ObjectModel { groups: c.groups + init, ..c });
    } else {
        assert forall|i: int| 0 <= i < init.len() implies written_group(#[trigger] init[i]) by {
            assert(init[i] == gs[i]);
        }
        lemma_groups_run(st, init, base);
        let s1 = ObjProgress {
            object: ObjectModel { groups: c.groups + init.drop_last(), ..c },
            group: init.last(),
            ..st
        };
        lemma_run_append(st, groups_lines(init), group_lines(gs.last()), base);
        lemma_group_run(s1, gs.last(), base + groups_lines(init).len());
        assert(written_group(init[init.len() - 1]));
        assert((c.groups + init.drop_last()).push(init.last()) =~= c.groups + init);
    }
}

/// An object as the writer writes it and the reader reads it back.
pub open spec fn written_object(o: ObjectModel) -> bool {
    &&& is_plain_name(o.name)
    &&& o.groups.len() >= 1
    &&& forall|i: int| 0 <= i < o.groups.len() ==> written_group(#[trigger] o.groups[i])
}

proof fn lemma_object_run(st: ObjProgress, o: ObjectModel, base: int)
    requires
        written_object(o),
    ensures
        obj_run(st, object_lines(o), base) == Ok::<ObjProgress, ObjFault>(
            ObjProgress {
                data: ObjModel {
                    objects: close_object(st.data.objects, close_group(st.object, st.group)),
                    ..st.data
                },
                object: ObjectModel { name: o.name, groups: o.groups.drop_last() },
                group: o.groups.last(),
            },
        ),
{
    let head = seq![seq!['o', ' '] + o.name];
    lemma_run_one(st, seq!['o', ' '] + o.name, base);
    lemma_object_line_reads_back(st, o.name, base + 1);
    let s1 = ObjProgress {
        data: ObjModel {
            objects: close_object(st.data.objects, close_group(st.object, st.group)),
            ..st.data
        },
        object: ObjectModel { name: o.name, groups: seq![] },
        group: new_group(default_name()),
    };
    lemma_run_append(st, head, groups_lines(o.groups), base);
    lemma_groups_run(s1, o.groups, base + 1);
    assert(Seq::<GroupModel>::empty() + o.groups.drop_last() =~= o.groups.drop_last());
}

proof fn lemma_objects_run(st: ObjProgress, os: Seq<ObjectModel>, base: int)
    requires
        os.len() >= 1,
        forall|i: int| 0 <= i < os.len() ==> written_object(#[trigger] os[i]),
    ensures
        obj_run(st, objects_lines(os), base) == Ok::<ObjProgress, ObjFault>(
            ObjProgress {
                data: ObjModel {
                    objects: close_object(st.data.objects, close_group(st.object, st.group))
                        + os.drop_last(),
                    ..st.data
                },
                object: ObjectModel { name: os.last().name, groups: os.last().groups.drop_last() },
                group: os.last().groups.last(),
            },
        ),
    decreases os.len(),
{
    let d = close_object(st.data.objects, close_group(st.object, st.group));
    let init = os.drop_last();
    assert(written_object(os[os.len() - 1]));
    if os.len() == 1 {
        assert(objects_lines(os) =~= object_lines(os.last()));
        lemma_object_run(st, os.last(), base);
        assert(d + init =~= d);
    } else {
        assert forall|i: int| 0 <= i < init.len() implies written_object(#[trigger] init[i]) by {
            assert(init[i] == os[i]);
        }
        lemma_objects_run(st, init, base);
        let prev = init.last();
        let s1 = ObjProgress {
            data: ObjModel { objects: d + init.drop_last(), ..st.data },
            object: ObjectModel { name: prev.name, groups: prev.groups.drop_last() },
            group: prev.groups.last(),
        };
        lemma_run_append(st, objects_lines(init), object_lines(os.last()), base);
        lemma_object_run(s1, os.last(), base + objects_lines(init).len());
        assert(written_object(init[init.len() - 1]));
        assert(written_group(prev.groups[prev.groups.len() - 1]));
        assert(prev.groups.drop_last().push(prev.groups.last()) =~= prev.groups);
        assert(close_group(s1.object, s1.group) == prev);
        assert((d + init.drop_last()).push(prev) =~= d + init);
    }
}

proof fn lemma_header_run(st: ObjProgress, base: int)
    ensures
        obj_run(st, seq![header_text().drop_last()], base) == Ok::<ObjProgress, ObjFault>(st),
{
    let h = header_text().drop_last();
    reveal_strlit("# Generated by the obj Rust library (https://crates.io/crates/obj).\n");
    assert(h[0] == '#' && h[1] == ' ');
    assert(h =~= seq!['#', ' '] + h.skip(2));
    lemma_tokens_after_directive('#', h.skip(2));
    lemma_run_one(st, h, base);
    let toks = tokens(h);
    assert(toks[0] == seq!['#']);
    reveal_strlit("v");
    reveal_strlit("vt");
    reveal_strlit("vn");
    reveal_strlit("o");
    reveal_strlit("g");
    reveal_strlit("f");
    reveal_strlit("l");
    reveal_strlit("usemtl");
    reveal_strlit("mtllib");
    assert(toks[0][0] != "v"@[0] && toks[0][0] != "o"@[0] && toks[0][0] != "g"@[0]);
    assert(toks[0][0] != "f"@[0] && toks[0][0] != "l"@[0]);
    assert(directive_of(toks[0]) == Directive::Other);
    assert(is_comment(toks[0]));
}

/// A model in the part of the format that the writer covers, in the form
/// in which the reader builds it: positions of three literals, no texture
/// coordinates, normals, materials or material libraries, names of
/// single-spaced tokens, no empty object or group, faces of three vertices
/// or more, polylines of two or more without normals, indices below
/// `i64::MAX`.
pub open spec fn written_model(m: ObjModel) -> bool {
    &&& m.texture.len() == 0
    &&& m.normal.len() == 0
    &&& m.material_libs.len() == 0
    &&& forall|i: int| 0 <= i < m.position.len() ==> (#[trigger] m.position[i]).len() == 3
        && forall|j: int| 0 <= j < 3 ==> is_float_literal(#[trigger] m.position[i][j])
    &&& forall|i: int| 0 <= i < m.objects.len() ==> written_object(#[trigger] m.objects[i])
}

/// Writing a model of the part of the format that the writer covers and
/// reading the written lines back gives the same model.
pub proof fn lemma_written_model_reads_back(m: ObjModel)
    requires
        written_model(m),
    ensures
        obj_parse(written_lines(m)) == Ok::<ObjModel, ObjFault>(m),
{
    let ls = written_lines(m);
    let h = seq![header_text().drop_last()];
    let ps = position_lines(m.position);
    let st0 = initial_progress();
    lemma_prefix_is_run(ls, ls.len());
    assert(ls.take(ls.len() as int) =~= ls);
    lemma_header_run(st0, 0);
    lemma_run_append(st0, h, ps, 0);
    lemma_positions_run(st0, m.position, 1);
    let st1 = ObjProgress { data: ObjModel { position: st0.data.position + m.position, ..st0.data }, ..st0 };
    assert(st0.data.position + m.position =~= m.position);
    lemma_run_append(st0, h + ps, objects_lines(m.objects), 0);
    assert(ls == h + ps + objects_lines(m.objects));
    assert(m.texture =~= seq![]);
    assert(m.normal =~= seq![]);
    assert(m.material_libs =~= seq![]);
    let empty_default = close_group(st1.object, st1.group);
    assert(empty_default == st1.object);
    if m.objects.len() == 0 {
        assert(objects_lines(m.objects) =~= seq![]);
        assert(m.objects =~= seq![]);
        assert(finish(st1) == m);
    } else {
        lemma_objects_run(st1, m.objects, 1 + ps.len() as int);
        let os = m.objects;
        let last = os.last();
        assert(written_object(os[os.len() - 1]));
        assert(written_group(last.groups[last.groups.len() - 1]));
        assert(last.groups.drop_last().push(last.groups.last()) =~= last.groups);
        assert(close_object(st1.data.objects, empty_default) =~= seq![]);
        assert((Seq::<ObjectModel>::empty() + os.drop_last()).push(last) =~= os);
    }
}

/// Lines, each followed by a line break.
pub open spec fn text_of_lines(ls: Seq<Seq<char>>) -> Seq<char>
    decreases ls.len(),
{
    if ls.len() == 0 {
        seq![]
    } else {
        text_of_lines(ls.drop_last()) + ls.last() + seq!['\n']
    }
}

proof fn lemma_text_append(a: Seq<Seq<char>>, b: Seq<Seq<char>>)
    ensures
        text_of_lines(a + b) == text_of_lines(a) + text_of_lines(b),
    decreases b.len(),
{
    if b.len() == 0 {
        assert(a + b =~= a);
        assert(text_of_lines(a) + text_of_lines(b) =~= text_of_lines(a));
    } else {
        lemma_text_append(a, b.drop_last());
        assert((a + b).drop_last() =~= a + b.drop_last());
        assert((a + b).last() == b.last());
        assert(text_of_lines(a) + text_of_lines(b.drop_last()) + b.last() + seq!['\n'] =~= text_of_lines(
            a,
        ) + (text_of_lines(b.drop_last()) + b.last() + seq!['\n']));
    }
}

proof fn lemma_text_one(x: Seq<char>)
    ensures
        text_of_lines(seq![x]) == x + seq!['\n'],
{
    assert(seq![x].drop_last() =~= Seq::<Seq<char>>::empty());
    assert(text_of_lines(seq![x].drop_last()) == Seq::<char>::empty());
    assert(seq![x].last() == x);
    assert(Seq::<char>::empty() + x + seq!['\n'] =~= x + seq!['\n']);
}

proof fn lemma_positions_text(ps: Seq<Seq<Seq<char>>>)
    ensures
        positions_text(ps) == text_of_lines(position_lines(ps)),
    decreases ps.len(),
{
    if ps.len() > 0 {
        lemma_positions_text(ps.drop_last());
        assert(position_lines(ps).drop_last() =~= position_lines(ps.drop_last()));
        assert(positions_text(ps.drop_last()) + seq!['v', ' '] + join_spaced(ps.last()) + seq!['\n']
            =~= positions_text(ps.drop_last()) + position_line(ps.last()) + seq!['\n']);
    } else {
        assert(position_lines(ps) =~= seq![]);
    }
}

proof fn lemma_lines_text(ls: Seq<Seq<LineTuple>>)
    ensures
        lines_text(ls) == text_of_lines(polyline_lines(ls)),
    decreases ls.len(),
{
    if ls.len() > 0 {
        lemma_lines_text(ls.drop_last());
        assert(polyline_lines(ls).drop_last() =~= polyline_lines(ls.drop_last()));
        assert(lines_text(ls.drop_last()) + seq!['l'] + line_refs_text(ls.last()) + seq!['\n']
            =~= lines_text(ls.drop_last()) + (seq!['l'] + line_refs_text(ls.last())) + seq!['\n']);
    } else {
        assert(polyline_lines(ls) =~= seq![]);
    }
}

proof fn lemma_faces_text(fs: Seq<Seq<IndexTuple>>)
    ensures
        faces_text(fs) == text_of_lines(face_lines(fs)),
    decreases fs.len(),
{
    if fs.len() > 0 {
        lemma_faces_text(fs.drop_last());
        assert(face_lines(fs).drop_last() =~= face_lines(fs.drop_last()));
        assert(faces_text(fs.drop_last()) + seq!['f'] + face_refs_text(fs.last()) + seq!['\n']
            =~= faces_text(fs.drop_last()) + (seq!['f'] + face_refs_text(fs.last())) + seq!['\n']);
    } else {
        assert(face_lines(fs) =~= seq![]);
    }
}

proof fn lemma_group_text(g: GroupModel)
    ensures
        group_text(g) == text_of_lines(group_lines(g)),
{
    let head = seq![seq!['g', ' '] + g.name];
    lemma_text_append(head + polyline_lines(g.lines), face_lines(g.polys));
    lemma_text_append(head, polyline_lines(g.lines));
    lemma_text_one(seq!['g', ' '] + g.name);
    lemma_lines_text(g.lines);
    lemma_faces_text(g.polys);
}

proof fn lemma_groups_text(gs: Seq<GroupModel>)
    ensures
        groups_text(gs) == text_of_lines(groups_lines(gs)),
    decreases gs.len(),
{
    if gs.len() > 0 {
        lemma_groups_text(gs.drop_last());
        lemma_group_text(gs.last());
        lemma_text_append(groups_lines(gs.drop_last()), group_lines(gs.last()));
    }
}

proof fn lemma_object_text(o: ObjectModel)
    ensures
        object_text(o) == text_of_lines(object_lines(o)),
{
    let head = seq![seq!['o', ' '] + o.name];
    lemma_text_append(head, groups_lines(o.groups));
    lemma_text_one(seq!['o', ' '] + o.name);
    lemma_groups_text(o.groups);
}

proof fn lemma_objects_text(os: Seq<ObjectModel>)
    ensures
        objects_text(os) == text_of_lines(objects_lines(os)),
    decreases os.len(),
{
    if os.len() > 0 {
        lemma_objects_text(os.drop_last());
        lemma_object_text(os.last());
        lemma_text_append(objects_lines(os.drop_last()), object_lines(os.last()));
    }
}

/// The written text of a model is its written lines, each followed by a
/// line break.
pub proof fn lemma_text_is_written_lines(m: ObjModel)
    ensures
        obj_text(m) == text_of_lines(written_lines(m)),
{
    let h = header_text().drop_last();
    reveal_strlit("# Generated by the obj Rust library (https://crates.io/crates/obj).\n");
    assert(header_text() =~= h + seq!['\n']);
    lemma_text_one(h);
    lemma_text_append(seq![h] + position_lines(m.position), objects_lines(m.objects));
    lemma_text_append(seq![h], position_lines(m.position));
    lemma_positions_text(m.position);
    lemma_objects_text(m.objects);
}

/// A line of the part of the format that the writer covers: blank, or a
/// `v`, `o`, `g`, `f` or `l` directive, or no directive of the format
/// (a comment, or an error).
pub open spec fn line_in_written_subset(toks: Seq<Seq<char>>) -> bool {
    toks.len() == 0 || match directive_of(toks[0]) {
        Directive::TexCoord | Directive::Normal | Directive::UseMaterial | Directive::MaterialLib => false,
        _ => true,
    }
}

pub open spec fn in_written_subset(ls: Seq<Seq<char>>) -> bool {
    forall|k: int| 0 <= k < ls.len() ==> line_in_written_subset(#[trigger] tokens(ls[k]))
}

/// What holds of the reader's state after `k` lines of the writer's subset.
pub open spec fn reader_state_ok(st: ObjProgress, k: int) -> bool {
    &&& st.data.texture.len() == 0
    &&& st.data.normal.len() == 0
    &&& st.data.material_libs.len() == 0
    &&& st.data.position.len() <= k
    &&& forall|i: int| 0 <= i < st.data.position.len() ==> (#[trigger] st.data.position[i]).len() == 3
        && forall|j: int| 0 <= j < 3 ==> is_float_literal(#[trigger] st.data.position[i][j])
    &&& forall|i: int| 0 <= i < st.data.objects.len() ==> written_object(#[trigger] st.data.objects[i])
    &&& is_plain_name(st.object.name)
    &&& forall|i: int| 0 <= i < st.object.groups.len() ==> written_group(#[trigger] st.object.groups[i])
    &&& is_plain_name(st.group.name)
    &&& st.group.material is None
    &&& forall|i: int| 0 <= i < st.group.lines.len() ==> written_polyline(#[trigger] st.group.lines[i])
    &&& forall|i: int| 0 <= i < st.group.polys.len() ==> written_face(#[trigger] st.group.polys[i])
}

proof fn lemma_close_group_ok(st: ObjProgress, k: int)
    requires
        reader_state_ok(st, k),
    ensures
        is_plain_name(close_group(st.object, st.group).name),
        forall|i: int| 0 <= i < close_group(st.object, st.group).groups.len() ==> written_group(
            #[trigger] close_group(st.object, st.group).groups[i],
        ),
{
    let c = close_group(st.object, st.group);
    if has_primitives(st.group) {
        assert(written_group(st.group));
        assert forall|i: int| 0 <= i < c.groups.len() implies written_group(#[trigger] c.groups[i]) by {
            if i < st.object.groups.len() {
                assert(c.groups[i] == st.object.groups[i]);
            }
        }
    }
}

proof fn lemma_closed_objects_ok(st: ObjProgress, k: int)
    requires
        reader_state_ok(st, k),
    ensures
        forall|i: int| 0 <= i < close_object(st.data.objects, close_group(st.object, st.group)).len()
            ==> written_object(#[trigger] close_object(st.data.objects, close_group(st.object, st.group))[i]),
{
    lemma_close_group_ok(st, k);
    let c = close_group(st.object, st.group);
    let os = close_object(st.data.objects, c);
    if c.groups.len() > 0 {
        assert(written_object(c));
        assert forall|i: int| 0 <= i < os.len() implies written_object(#[trigger] os[i]) by {
            if i < st.data.objects.len() {
                assert(os[i] == st.data.objects[i]);
            }
        }
    }
}

proof fn lemma_finish_ok(st: ObjProgress, k: int)
    requires
        reader_state_ok(st, k),
    ensures
        written_model(finish(st)),
{
    lemma_closed_objects_ok(st, k);
}

proof fn lemma_plain_join(args: Seq<Seq<char>>)
    requires
        args.len() > 0,
        forall|i: int| 0 <= i < args.len() ==> is_token(#[trigger] args[i]),
    ensures
        is_plain_name(join_spaced(args)),
{
    lemma_tokens_of_join(args);
}

proof fn lemma_default_plain()
    ensures
        is_plain_name(default_name()),
{
    let d = default_name();
    assert forall|i: int| 0 <= i < d.len() implies !is_ws(#[trigger] d[i]) by {}
    lemma_tokens_word(d, seq![]);
    assert(Seq::<char>::empty() + d =~= d);
    assert(tokens(d) =~= seq![d]);
}

proof fn lemma_name_of_plain(args: Seq<Seq<char>>)
    requires
        forall|i: int| 0 <= i < args.len() ==> is_token(#[trigger] args[i]),
    ensures
        is_plain_name(name_of(args)),
{
    if args.len() == 0 {
        lemma_default_plain();
    } else {
        lemma_plain_join(args);
    }
}

proof fn lemma_resolved_small(s: Seq<char>, len: int)
    requires
        0 <= len <= i64::MAX,
        len <= usize::MAX,
        resolve_text(s, len) is Some,
    ensures
        0 <= resolve_text(s, len)->0 < i64::MAX,
        resolve_text(s, len)->0 <= usize::MAX,
{
}

proof fn lemma_vertex_small(t: Seq<char>, np: int, nt: int, nn: int)
    requires
        0 <= np <= i64::MAX && np <= usize::MAX,
        0 <= nt <= i64::MAX && nt <= usize::MAX,
        0 <= nn <= i64::MAX && nn <= usize::MAX,
        vertex_ref(t, np, nt, nn) is Some,
    ensures
        small_ref(vertex_ref(t, np, nt, nn)->0),
{
    let ps = crate::obj::slash_pieces(t);
    lemma_resolved_small(ps[0], np);
    if ps.len() >= 2 && (ps.len() == 2 || ps[1].len() > 0) {
        lemma_resolved_small(ps[1], nt);
    }
    if ps.len() == 3 {
        lemma_resolved_small(ps[2], nn);
    }
}

proof fn lemma_refs_small(args: Seq<Seq<char>>, np: int, nt: int, nn: int)
    requires
        0 <= np <= i64::MAX && np <= usize::MAX,
        0 <= nt <= i64::MAX && nt <= usize::MAX,
        0 <= nn <= i64::MAX && nn <= usize::MAX,
        refs_of(args, np, nt, nn) is Ok,
    ensures
        refs_of(args, np, nt, nn)->Ok_0.len() == args.len(),
        forall|i: int| 0 <= i < args.len() ==> small_ref(#[trigger] refs_of(args, np, nt, nn)->Ok_0[i]),
    decreases args.len(),
{
    if args.len() > 0 {
        lemma_refs_small(args.drop_last(), np, nt, nn);
        lemma_vertex_small(args.last(), np, nt, nn);
        let rs = refs_of(args, np, nt, nn)->Ok_0;
        let init = refs_of(args.drop_last(), np, nt, nn)->Ok_0;
        assert(rs == init.push(vertex_ref(args.last(), np, nt, nn)->0));
        assert forall|i: int| 0 <= i < args.len() implies small_ref(#[trigger] rs[i]) by {
            if i < init.len() {
                assert(rs[i] == init[i]);
            }
        }
    }
}

#[verifier::rlimit(60)]
proof fn lemma_step_ok(st: ObjProgress, toks: Seq<Seq<char>>, ln: int, k: int)
    requires
        reader_state_ok(st, k),
        0 <= k,
        k + 1 <= i64::MAX,
        k + 1 <= usize::MAX,
        line_in_written_subset(toks),
        forall|i: int| 0 <= i < toks.len() ==> is_token(#[trigger] toks[i]),
        obj_step(st, toks, ln) is Ok,
    ensures
        reader_state_ok(obj_step(st, toks, ln)->Ok_0, k + 1),
{
    if toks.len() > 0 {
        let args = toks.drop_first();
        assert forall|i: int| 0 <= i < args.len() implies is_token(#[trigger] args[i]) by {
            assert(args[i] == toks[i + 1]);
        }
        let st2 = obj_step(st, toks, ln)->Ok_0;
        let np = st.data.position.len() as int;
        match directive_of(toks[0]) {
            Directive::Vertex => {
                assert(are_floats(args, 3, 3));
                assert(st2.data.position == st.data.position.push(args));
                assert forall|i: int| 0 <= i < st2.data.position.len() implies (#[trigger] st2.data.position[i]).len() == 3
                    && forall|j: int| 0 <= j < 3 ==> is_float_literal(#[trigger] st2.data.position[i][j]) by {
                    if i < st.data.position.len() {
                        assert(st2.data.position[i] == st.data.position[i]);
                    } else {
                        assert(st2.data.position[i] == args);
                    }
                }
            },
            Directive::Object => {
                lemma_closed_objects_ok(st, k);
                lemma_name_of_plain(args);
                lemma_default_plain();
            },
            Directive::Group => {
                lemma_close_group_ok(st, k);
                lemma_name_of_plain(args);
            },
            Directive::Face => {
                lemma_refs_small(args, np, 0, 0);
                let rs = refs_of(args, np, 0, 0)->Ok_0;
                assert(written_face(rs));
                assert(st2.group.polys == st.group.polys.push(rs));
                assert forall|i: int| 0 <= i < st2.group.polys.len() implies written_face(#[trigger] st2.group.polys[i]) by {
                    if i < st.group.polys.len() {
                        assert(st2.group.polys[i] == st.group.polys[i]);
                    }
                }
            },
            Directive::Polyline => {
                lemma_refs_small(args, np, 0, 0);
                let rs = refs_of(args, np, 0, 0)->Ok_0;
                let l = line_of(rs);
                assert forall|i: int| 0 <= i < l.len() implies (#[trigger] l[i]).0 < i64::MAX && (
                l[i].1 matches Some(t) ==> t < i64::MAX) by {
                    assert(small_ref(rs[i]));
                }
                assert(written_polyline(l));
                assert(st2.group.lines == st.group.lines.push(l));
                assert forall|i: int| 0 <= i < st2.group.lines.len() implies written_polyline(#[trigger] st2.group.lines[i]) by {
                    if i < st.group.lines.len() {
                        assert(st2.group.lines[i] == st.group.lines[i]);
                    }
                }
            },
            _ => {},
        }
    }
}

proof fn lemma_prefix_ok(ls: Seq<Seq<char>>, k: nat)
    requires
        in_written_subset(ls),
        k <= ls.len(),
        ls.len() <= i64::MAX,
        ls.len() <= usize::MAX,
        obj_prefix(ls, k) is Ok,
    ensures
        reader_state_ok(obj_prefix(ls, k)->Ok_0, k as int),
    decreases k,
{
    if k == 0 {
        lemma_default_plain();
    } else {
        if obj_prefix(ls, (k - 1) as nat) is Err {
            lemma_error_persists(ls, (k - 1) as nat, k);
        }
        lemma_prefix_ok(ls, (k - 1) as nat);
        let toks = tokens(ls[k - 1]);
        lemma_tokens_are_tokens(ls[k - 1], seq![]);
        assert(line_in_written_subset(tokens(ls[k - 1])));
        lemma_step_ok(obj_prefix(ls, (k - 1) as nat)->Ok_0, toks, k as int, k - 1);
    }
}

/// Reading text in the part of the format that the writer covers, writing
/// the model and reading the written lines again gives the same model; the
/// written text is those lines, each followed by a line break.
pub proof fn lemma_load_write_load(ls: Seq<Seq<char>>)
    requires
        in_written_subset(ls),
        ls.len() <= i64::MAX,
        ls.len() <= usize::MAX,
        obj_parse(ls) is Ok,
    ensures
        obj_parse(written_lines(obj_parse(ls)->Ok_0)) == obj_parse(ls),
        obj_text(obj_parse(ls)->Ok_0) == text_of_lines(written_lines(obj_parse(ls)->Ok_0)),
{
    lemma_prefix_ok(ls, ls.len());
    lemma_finish_ok(obj_prefix(ls, ls.len())->Ok_0, ls.len() as int);
    lemma_written_model_reads_back(obj_parse(ls)->Ok_0);
    lemma_text_is_written_lines(obj_parse(ls)->Ok_0);
}

} // verus!
