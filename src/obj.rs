//! The geometry format: vertex attributes, faces and polylines grouped
//! into named objects and groups.
use vstd::prelude::*;
use crate::number::{
    decimal, integer_in, is_digit, is_float_literal, lemma_decimal_digits, lemma_decimal_literal,
    parse_i64, Real,
};
use crate::text::{tokens, views, join_spaced, join_tokens, split_tokens, string_from_chars};
use crate::mtl::{is_word, is_comment, line_texts};

verus! {

/// A vertex of a face: zero-based position, texture-coordinate and normal indices.
#[derive(Debug, Clone, Copy, PartialEq, Eq, Structural)]
pub struct IndexTuple(pub usize, pub Option<usize>, pub Option<usize>);

/// A polygonal face.
#[derive(Debug, PartialEq)]
pub struct SimplePolygon(pub Vec<IndexTuple>);

/// A vertex of a polyline: zero-based position and texture-coordinate indices.
#[derive(Debug, Clone, Copy, PartialEq, Eq, Structural)]
pub struct LineTuple(pub usize, pub Option<usize>);

/// A polyline.
#[derive(Debug, PartialEq)]
pub struct Line(pub Vec<LineTuple>);

/// The pieces of `s` between slashes, given that `cur` is the piece read so far.
pub open spec fn pieces_from(s: Seq<char>, cur: Seq<char>) -> Seq<Seq<char>>
    decreases s.len(),
{
    if s.len() == 0 {
        seq![cur]
    } else if s[0] == '/' {
        seq![cur] + pieces_from(s.drop_first(), seq![])
    } else {
        pieces_from(s.drop_first(), cur.push(s[0]))
    }
}

/// The pieces of `s` between slashes, empty ones included.
pub open spec fn slash_pieces(s: Seq<char>) -> Seq<Seq<char>> {
    pieces_from(s, seq![])
}

fn split_slashes(t: &Vec<char>) -> (r: Vec<Vec<char>>)
    ensures
        views(r@) == slash_pieces(t@),
{
    let mut out: Vec<Vec<char>> = Vec::new();
    let mut cur: Vec<char> = Vec::new();
    let mut i: usize = 0;
    assert(t@.skip(0) =~= t@);
    assert(views(out@) =~= seq![]);
    while i < t.len()
        invariant
            i <= t@.len(),
            slash_pieces(t@) == views(out@) + pieces_from(t@.skip(i as int), cur@),
        decreases t@.len() - i,
    {
        let c = t[i];
        let ghost rest = t@.skip(i as int);
        assert(rest[0] == c);
        assert(rest.drop_first() =~= t@.skip(i + 1));
        if c == '/' {
            let ghost before = views(out@);
            let ghost old_cur = cur@;
            out.push(cur);
            assert(views(out@) =~= before + seq![old_cur]);
            cur = Vec::new();
            assert(cur@ =~= Seq::<char>::empty());
            assert(before + (seq![old_cur] + pieces_from(rest.drop_first(), seq![]))
                =~= (before + seq![old_cur]) + pieces_from(rest.drop_first(), seq![]));
        } else {
            cur.push(c);
        }
        i += 1;
    }
    let ghost before = views(out@);
    let ghost last = cur@;
    out.push(cur);
    assert(views(out@) =~= before + seq![last]);
    assert(t@.skip(t@.len() as int) =~= seq![]);
    out
}

/// The zero-based index that the one-based or negative (counted back from
/// the end) reference `v` denotes in an array of length `len`; `None` for
/// zero, for a negative reference past the start, and for an index that
/// does not fit in `usize`.
pub open spec fn resolve_index(v: int, len: int) -> Option<int> {
    if v > 0 {
        if v - 1 <= usize::MAX {
            Some(v - 1)
        } else {
            None
        }
    } else if v < 0 && len + v >= 0 {
        Some(len + v)
    } else {
        None
    }
}

/// The index that the text `s` denotes in an array of length `len`.
pub open spec fn resolve_text(s: Seq<char>, len: int) -> Option<int> {
    match integer_in(s, i64::MIN as int, i64::MAX as int) {
        Some(v) => resolve_index(v, len),
        None => None,
    }
}

fn resolve(s: &Vec<char>, len: usize) -> (r: Option<usize>)
    ensures
        r matches Some(i) ==> resolve_text(s@, len as int) == Some(i as int),
        r is None ==> resolve_text(s@, len as int) is None,
{
    match parse_i64(s) {
        Some(v) => {
            if v > 0 {
                if (v - 1) as u64 <= usize::MAX as u64 {
                    Some((v - 1) as usize)
                } else {
                    None
                }
            } else if v < 0 && v as i128 >= -(len as i128) {
                Some((len as i128 + v as i128) as usize)
            } else {
                None
            }
        },
        None => None,
    }
}

/// The vertex that the reference text `t` (`p`, `p/t`, `p//n` or `p/t/n`)
/// denotes, with attribute arrays of lengths `np`, `nt` and `nn`.
pub open spec fn vertex_ref(t: Seq<char>, np: int, nt: int, nn: int) -> Option<IndexTuple> {
    let ps = slash_pieces(t);
    if !(1 <= ps.len() <= 3) {
        None
    } else {
        let p = resolve_text(ps[0], np);
        let tx = if ps.len() >= 2 && (ps.len() == 2 || ps[1].len() > 0) {
            resolve_text(ps[1], nt)
        } else {
            Some(-1)
        };
        let n = if ps.len() == 3 {
            resolve_text(ps[2], nn)
        } else {
            Some(-1)
        };
        if p is None || tx is None || n is None {
            None
        } else {
            Some(
                IndexTuple(
                    p->0 as usize,
                    if tx->0 >= 0 { Some(tx->0 as usize) } else { None },
                    if n->0 >= 0 { Some(n->0 as usize) } else { None },
                ),
            )
        }
    }
}

fn parse_ref(t: &Vec<char>, np: usize, nt: usize, nn: usize) -> (r: Option<IndexTuple>)
    ensures
        r == vertex_ref(t@, np as int, nt as int, nn as int),
{
    let ps = split_slashes(t);
    assert(views(ps@).len() == ps@.len());
    if !(1 <= ps.len() && ps.len() <= 3) {
        return None;
    }
    assert(views(ps@)[0] == ps@[0]@);
    let p = match resolve(&ps[0], np) {
        Some(p) => p,
        None => return None,
    };
    let mut tx: Option<usize> = None;
    if ps.len() >= 2 && (ps.len() == 2 || ps[1].len() > 0) {
        assert(views(ps@)[1] == ps@[1]@);
        match resolve(&ps[1], nt) {
            Some(i) => tx = Some(i),
            None => return None,
        }
    }
    let mut n: Option<usize> = None;
    if ps.len() == 3 {
        assert(views(ps@)[2] == ps@[2]@);
        match resolve(&ps[2], nn) {
            Some(i) => n = Some(i),
            None => return None,
        }
    }
    Some(IndexTuple(p, tx, n))
}

/// The references of `args`, in order, or the first that does not resolve.
pub open spec fn refs_of(args: Seq<Seq<char>>, np: int, nt: int, nn: int) -> Result<
    Seq<IndexTuple>,
    Seq<char>,
>
    decreases args.len(),
{
    if args.len() == 0 {
        Ok(seq![])
    } else {
        match refs_of(args.drop_last(), np, nt, nn) {
            Ok(rs) => match vertex_ref(args.last(), np, nt, nn) {
                Some(r) => Ok(rs.push(r)),
                None => Err(args.last()),
            },
            Err(e) => Err(e),
        }
    }
}

/// Resolves the references `toks[1..]`.
fn parse_refs(toks: &Vec<Vec<char>>, np: usize, nt: usize, nn: usize) -> (r: Result<
    Vec<IndexTuple>,
    Vec<char>,
>)
    requires
        toks@.len() >= 1,
    ensures
        match refs_of(views(toks@).skip(1), np as int, nt as int, nn as int) {
            Ok(rs) => r matches Ok(v) && v@ == rs,
            Err(t) => r matches Err(x) && x@ == t,
        },
{
    let ghost args = views(toks@).skip(1);
    let mut out: Vec<IndexTuple> = Vec::new();
    let mut i: usize = 1;
    assert(args.take(0) =~= seq![]);
    while i < toks.len()
        invariant
            1 <= i <= toks@.len(),
            args == views(toks@).skip(1),
            refs_of(args.take(i - 1), np as int, nt as int, nn as int) == Ok::<
                Seq<IndexTuple>,
                Seq<char>,
            >(out@),
        decreases toks@.len() - i,
    {
        let ghost pre = args.take(i as int);
        assert(pre.drop_last() =~= args.take(i - 1));
        assert(pre.last() == toks@[i as int]@);
        match parse_ref(&toks[i], np, nt, nn) {
            Some(r) => out.push(r),
            None => {
                proof { lemma_refs_error_persists(args, i as nat, np as int, nt as int, nn as int); }
                return Err(copy_chars(&toks[i]));
            },
        }
        i += 1;
    }
    assert(args.take(toks@.len() - 1) =~= args);
    Ok(out)
}

proof fn lemma_refs_error_persists(args: Seq<Seq<char>>, k: nat, np: int, nt: int, nn: int)
    requires
        k <= args.len(),
        refs_of(args.take(k as int), np, nt, nn) is Err,
    ensures
        refs_of(args, np, nt, nn) == refs_of(args.take(k as int), np, nt, nn),
    decreases args.len() - k,
{
    if k < args.len() {
        let a = args.drop_last();
        assert(a.take(k as int) =~= args.take(k as int));
        lemma_refs_error_persists(a, k, np, nt, nn);
    } else {
        assert(args.take(k as int) =~= args);
    }
}

fn copy_chars(t: &Vec<char>) -> (r: Vec<char>)
    ensures
        r@ == t@,
{
    let mut r: Vec<char> = Vec::new();
    crate::text::append_chars(&mut r, t);
    r
}

/// A named set of faces and polylines.
pub struct Group {
    pub name: String,
    /// The material named by the last `usemtl` in the group.
    pub material: Option<String>,
    pub polys: Vec<SimplePolygon>,
    pub lines: Vec<Line>,
}

/// A named sequence of groups.
pub struct Object {
    pub name: String,
    pub groups: Vec<Group>,
}

/// The contents of a geometry file.
pub struct ObjData {
    pub position: Vec<[Real; 3]>,
    /// Texture coordinates of two or three components.
    pub texture: Vec<Vec<Real>>,
    pub normal: Vec<[Real; 3]>,
    pub objects: Vec<Object>,
    /// The material libraries named by `mtllib`.
    pub material_libs: Vec<String>,
}

pub struct GroupModel {
    pub name: Seq<char>,
    pub material: Option<Seq<char>>,
    pub polys: Seq<Seq<IndexTuple>>,
    pub lines: Seq<Seq<LineTuple>>,
}

pub struct ObjectModel {
    pub name: Seq<char>,
    pub groups: Seq<GroupModel>,
}

/// A geometry file's contents, each number by the literal that denotes it.
pub struct ObjModel {
    pub position: Seq<Seq<Seq<char>>>,
    pub texture: Seq<Seq<Seq<char>>>,
    pub normal: Seq<Seq<Seq<char>>>,
    pub objects: Seq<ObjectModel>,
    pub material_libs: Seq<Seq<char>>,
}

pub open spec fn reals_model(v: Seq<Real>) -> Seq<Seq<char>> {
    v.map_values(|r: Real| r@)
}

pub open spec fn triple(t: [Real; 3]) -> Seq<Seq<char>> {
    seq![t[0]@, t[1]@, t[2]@]
}

pub open spec fn opt_text(t: Option<String>) -> Option<Seq<char>> {
    match t {
        Some(v) => Some(v@),
        None => None,
    }
}

impl View for Group {
    type V = GroupModel;

    open spec fn view(&self) -> GroupModel {
        GroupModel {
            name: self.name@,
            material: opt_text(self.material),
            polys: self.polys@.map_values(|p: SimplePolygon| p.0@),
            lines: self.lines@.map_values(|l: Line| l.0@),
        }
    }
}

impl View for Object {
    type V = ObjectModel;

    open spec fn view(&self) -> ObjectModel {
        ObjectModel { name: self.name@, groups: self.groups@.map_values(|g: Group| g@) }
    }
}

impl View for ObjData {
    type V = ObjModel;

    open spec fn view(&self) -> ObjModel {
        ObjModel {
            position: self.position@.map_values(|t: [Real; 3]| triple(t)),
            texture: self.texture@.map_values(|v: Vec<Real>| reals_model(v@)),
            normal: self.normal@.map_values(|t: [Real; 3]| triple(t)),
            objects: self.objects@.map_values(|o: Object| o@),
            material_libs: self.material_libs@.map_values(|l: String| l@),
        }
    }
}

pub open spec fn default_name() -> Seq<char> {
    seq!['d', 'e', 'f', 'a', 'u', 'l', 't']
}

pub open spec fn new_group(name: Seq<char>) -> GroupModel {
    GroupModel { name, material: None, polys: seq![], lines: seq![] }
}

impl Group {
    pub fn new(name: String) -> (r: Group)
        ensures
            r@ == new_group(name@),
    {
        let r = Group { name, material: None, polys: Vec::new(), lines: Vec::new() };
        assert(r@.polys =~= seq![]);
        assert(r@.lines =~= seq![]);
        r
    }
}

impl Object {
    pub fn new(name: String) -> (r: Object)
        ensures
            r@ == (ObjectModel { name: name@, groups: seq![] }),
    {
        let r = Object { name, groups: Vec::new() };
        assert(r@.groups =~= seq![]);
        r
    }
}

impl ObjData {
    /// A model with nothing in it.
    pub fn new() -> (r: ObjData)
        ensures
            r@ == (ObjModel {
                position: seq![],
                texture: seq![],
                normal: seq![],
                objects: seq![],
                material_libs: seq![],
            }),
    {
        let r = ObjData {
            position: Vec::new(),
            texture: Vec::new(),
            normal: Vec::new(),
            objects: Vec::new(),
            material_libs: Vec::new(),
        };
        assert(r@.position =~= seq![]);
        assert(r@.texture =~= seq![]);
        assert(r@.normal =~= seq![]);
        assert(r@.objects =~= seq![]);
        assert(r@.material_libs =~= seq![]);
        r
    }
}

/// Errors reading a geometry file. Line numbers count from one.
#[derive(Debug)]
pub enum ObjError {
    /// Reading the underlying stream failed.
    Io(std::io::Error),
    /// The directive is not one of the format.
    InvalidInstruction { line_number: usize, instruction: String },
    /// A value does not parse or does not resolve, or a vector has the wrong number of components.
    InvalidValue { line_number: usize, value: String },
    /// The directive lacks a value it requires.
    MissingValue { line_number: usize },
    /// A polyline vertex names a normal.
    LineHasNormalIndex { line_number: usize },
}

impl From<std::io::Error> for ObjError {
    fn from(e: std::io::Error) -> (r: ObjError) {
        ObjError::Io(e)
    }
}

impl vstd::std_specs::convert::FromSpecImpl<std::io::Error> for ObjError {
    open spec fn obeys_from_spec() -> bool {
        true
    }

    open spec fn from_spec(e: std::io::Error) -> ObjError {
        ObjError::Io(e)
    }
}

/// An error of the geometry parser, by line number and the text it carries.
pub enum ObjFault {
    InvalidInstruction(int, Seq<char>),
    InvalidValue(int, Seq<char>),
    MissingValue(int),
    LineHasNormalIndex(int),
}

impl ObjError {
    /// The error is the parser error `f`.
    pub open spec fn is_fault(&self, f: ObjFault) -> bool {
        match (self, f) {
            (ObjError::InvalidInstruction { line_number, instruction }, ObjFault::InvalidInstruction(l, t)) =>
                *line_number as int == l && instruction@ == t,
            (ObjError::InvalidValue { line_number, value }, ObjFault::InvalidValue(l, t)) =>
                *line_number as int == l && value@ == t,
            (ObjError::MissingValue { line_number }, ObjFault::MissingValue(l)) => *line_number as int == l,
            (ObjError::LineHasNormalIndex { line_number }, ObjFault::LineHasNormalIndex(l)) =>
                *line_number as int == l,
            _ => false,
        }
    }
}

/// The parser's state between lines: the model so far (its objects the
/// completed ones), the object and the group being built.
pub struct ObjProgress {
    pub data: ObjModel,
    pub object: ObjectModel,
    pub group: GroupModel,
}

pub open spec fn has_primitives(g: GroupModel) -> bool {
    g.polys.len() > 0 || g.lines.len() > 0
}

/// `o` with `g` appended, if `g` holds a face or a polyline.
pub open spec fn close_group(o: ObjectModel, g: GroupModel) -> ObjectModel {
    if has_primitives(g) {
        ObjectModel { groups: o.groups.push(g), ..o }
    } else {
        o
    }
}

/// `objs` with `o` appended, if `o` holds a group.
pub open spec fn close_object(objs: Seq<ObjectModel>, o: ObjectModel) -> Seq<ObjectModel> {
    if o.groups.len() > 0 {
        objs.push(o)
    } else {
        objs
    }
}

/// The name that the arguments of `o` or `g` give.
pub open spec fn name_of(args: Seq<Seq<char>>) -> Seq<char> {
    if args.len() == 0 {
        default_name()
    } else {
        join_spaced(args)
    }
}

/// Between `lo` and `hi` floating-point literals.
pub open spec fn are_floats(args: Seq<Seq<char>>, lo: int, hi: int) -> bool {
    lo <= args.len() <= hi && forall|i: int| 0 <= i < args.len() ==> is_float_literal(#[trigger] args[i])
}

pub open spec fn line_of(rs: Seq<IndexTuple>) -> Seq<LineTuple> {
    rs.map_values(|r: IndexTuple| LineTuple(r.0, r.1))
}

/// The reference text has a normal part: a third piece between slashes.
pub open spec fn has_normal_part(t: Seq<char>) -> bool {
    slash_pieces(t).len() == 3
}

/// One of the reference texts has a normal part.
pub open spec fn any_normal_part(args: Seq<Seq<char>>) -> bool {
    exists|i: int| 0 <= i < args.len() && has_normal_part(#[trigger] args[i])
}

/// The directives of the geometry format.
#[derive(Clone, Copy, PartialEq, Eq, Structural)]
pub enum Directive {
    Vertex,
    TexCoord,
    Normal,
    Object,
    Group,
    Face,
    Polyline,
    UseMaterial,
    MaterialLib,
    Other,
}

/// The directive that a line's first token names.
pub open spec fn directive_of(key: Seq<char>) -> Directive {
    if key == "v"@ { Directive::Vertex }
    else if key == "vt"@ { Directive::TexCoord }
    else if key == "vn"@ { Directive::Normal }
    else if key == "o"@ { Directive::Object }
    else if key == "g"@ { Directive::Group }
    else if key == "f"@ { Directive::Face }
    else if key == "l"@ { Directive::Polyline }
    else if key == "usemtl"@ { Directive::UseMaterial }
    else if key == "mtllib"@ { Directive::MaterialLib }
    else { Directive::Other }
}

fn directive_kind(key: &Vec<char>) -> (r: Directive)
    ensures
        r == directive_of(key@),
{
    if is_word(key, "v") { Directive::Vertex }
    else if is_word(key, "vt") { Directive::TexCoord }
    else if is_word(key, "vn") { Directive::Normal }
    else if is_word(key, "o") { Directive::Object }
    else if is_word(key, "g") { Directive::Group }
    else if is_word(key, "f") { Directive::Face }
    else if is_word(key, "l") { Directive::Polyline }
    else if is_word(key, "usemtl") { Directive::UseMaterial }
    else if is_word(key, "mtllib") { Directive::MaterialLib }
    else { Directive::Other }
}

/// The state after line number `ln`, whose tokens are `toks`.
pub open spec fn obj_step(st: ObjProgress, toks: Seq<Seq<char>>, ln: int) -> Result<ObjProgress, ObjFault> {
    let d = st.data;
    let g = st.group;
    let args = toks.drop_first();
    if toks.len() == 0 {
        Ok(st)
    } else {
        match directive_of(toks[0]) {
            Directive::Vertex => if are_floats(args, 3, 3) {
                Ok(ObjProgress { data: ObjModel { position: d.position.push(args), ..d }, ..st })
            } else {
                Err(ObjFault::InvalidValue(ln, join_spaced(args)))
            },
            Directive::TexCoord => if are_floats(args, 2, 3) {
                Ok(ObjProgress { data: ObjModel { texture: d.texture.push(args), ..d }, ..st })
            } else {
                Err(ObjFault::InvalidValue(ln, join_spaced(args)))
            },
            Directive::Normal => if are_floats(args, 3, 3) {
                Ok(ObjProgress { data: ObjModel { normal: d.normal.push(args), ..d }, ..st })
            } else {
                Err(ObjFault::InvalidValue(ln, join_spaced(args)))
            },
            Directive::Object => Ok(ObjProgress {
                data: ObjModel { objects: close_object(d.objects, close_group(st.object, g)), ..d },
                object: ObjectModel { name: name_of(args), groups: seq![] },
                group: new_group(default_name()),
            }),
            Directive::Group => Ok(
                ObjProgress { object: close_group(st.object, g), group: new_group(name_of(args)), ..st },
            ),
            Directive::Face | Directive::Polyline => {
                let is_face = directive_of(toks[0]) == Directive::Face;
                if args.len() < (if is_face { 3int } else { 2int }) {
                    Err(ObjFault::MissingValue(ln))
                } else if !is_face && any_normal_part(args) {
                    Err(ObjFault::LineHasNormalIndex(ln))
                } else {
                    match refs_of(args, d.position.len() as int, d.texture.len() as int, d.normal.len() as int) {
                        Ok(rs) => if is_face {
                            Ok(ObjProgress { group: GroupModel { polys: g.polys.push(rs), ..g }, ..st })
                        } else {
                            Ok(ObjProgress { group: GroupModel { lines: g.lines.push(line_of(rs)), ..g }, ..st })
                        },
                        Err(t) => Err(ObjFault::InvalidValue(ln, t)),
                    }
                }
            },
            Directive::UseMaterial => if args.len() == 0 {
                Err(ObjFault::MissingValue(ln))
            } else {
                Ok(ObjProgress { group: GroupModel { material: Some(join_spaced(args)), ..g }, ..st })
            },
            Directive::MaterialLib => if args.len() == 0 {
                Err(ObjFault::MissingValue(ln))
            } else {
                Ok(ObjProgress { data: ObjModel { material_libs: d.material_libs.push(join_spaced(args)), ..d }, ..st })
            },
            Directive::Other => if is_comment(toks[0]) {
                Ok(st)
            } else {
                Err(ObjFault::InvalidInstruction(ln, toks[0]))
            },
        }
    }
}

pub open spec fn empty_model() -> ObjModel {
    ObjModel { position: seq![], texture: seq![], normal: seq![], objects: seq![], material_libs: seq![] }
}

/// The state after the first `k` lines.
pub open spec fn obj_prefix(lines: Seq<Seq<char>>, k: nat) -> Result<ObjProgress, ObjFault>
    decreases k,
{
    if k == 0 {
        Ok(ObjProgress {
            data: empty_model(),
            object: ObjectModel { name: default_name(), groups: seq![] },
            group: new_group(default_name()),
        })
    } else {
        match obj_prefix(lines, (k - 1) as nat) {
            Ok(st) => obj_step(st, tokens(lines[k - 1]), k as int),
            Err(e) => Err(e),
        }
    }
}

/// The model with the open group and object closed.
pub open spec fn finish(st: ObjProgress) -> ObjModel {
    ObjModel { objects: close_object(st.data.objects, close_group(st.object, st.group)), ..st.data }
}

/// The model that the lines describe, or the first error in them.
pub open spec fn obj_parse(lines: Seq<Seq<char>>) -> Result<ObjModel, ObjFault> {
    match obj_prefix(lines, lines.len()) {
        Ok(st) => Ok(finish(st)),
        Err(e) => Err(e),
    }
}

pub proof fn lemma_error_persists(lines: Seq<Seq<char>>, k: nat, n: nat)
    requires
        k <= n,
        obj_prefix(lines, k) is Err,
    ensures
        obj_prefix(lines, n) == obj_prefix(lines, k),
    decreases n - k,
{
    if k < n {
        lemma_error_persists(lines, k, (n - 1) as nat);
    }
}

/// Reads `toks[1..]` as between `lo` and `hi` floating-point literals.
fn read_reals(toks: &Vec<Vec<char>>, lo: usize, hi: usize) -> (r: Option<Vec<Real>>)
    requires
        toks@.len() >= 1,
    ensures
        r is Some <==> are_floats(views(toks@).skip(1), lo as int, hi as int),
        r matches Some(v) ==> reals_model(v@) == views(toks@).skip(1),
{
    let ghost args = views(toks@).skip(1);
    let n = toks.len() - 1;
    if n < lo || n > hi {
        return None;
    }
    let mut out: Vec<Real> = Vec::new();
    let mut i: usize = 1;
    while i < toks.len()
        invariant
            1 <= i <= toks@.len(),
            args == views(toks@).skip(1),
            lo <= args.len() <= hi,
            forall|j: int| 0 <= j < i - 1 ==> is_float_literal(#[trigger] args[j]),
            reals_model(out@) == args.take(i - 1),
        decreases toks@.len() - i,
    {
        assert(args[i - 1] == toks@[i as int]@);
        match Real::from_chars(&toks[i]) {
            Some(x) => {
                let ghost before = out@;
                out.push(x);
                assert(out@ =~= before.push(x));
                assert(reals_model(out@) =~= reals_model(before).push(x@));
                assert(args.take(i as int) =~= args.take(i - 1).push(args[i - 1]));
            },
            None => return None,
        }
        i += 1;
    }
    assert(args.take(toks@.len() - 1) =~= args);
    Some(out)
}

fn into_triple(v: Vec<Real>) -> (r: [Real; 3])
    requires
        v@.len() == 3,
    ensures
        triple(r) == reals_model(v@),
{
    let ghost m = reals_model(v@);
    let mut v = v;
    let z = v.pop().unwrap();
    let y = v.pop().unwrap();
    let x = v.pop().unwrap();
    let r = [x, y, z];
    assert(triple(r) =~= m);
    r
}

fn name_from(toks: &Vec<Vec<char>>) -> (r: String)
    requires
        toks@.len() >= 1,
    ensures
        r@ == name_of(views(toks@).skip(1)),
{
    if toks.len() == 1 {
        default_string()
    } else {
        string_from_chars(&join_tokens(toks, 1))
    }
}

fn close_group_into(object: &mut Object, g: Group)
    ensures
        final(object)@ == close_group(old(object)@, g@),
{
    if g.polys.len() > 0 || g.lines.len() > 0 {
        let ghost before = object@;
        object.groups.push(g);
        assert(object@.groups =~= before.groups.push(g@));
    }
}

fn close_object_into(objects: &mut Vec<Object>, o: Object)
    ensures
        final(objects)@.map_values(|o: Object| o@) == close_object(
            old(objects)@.map_values(|o: Object| o@),
            o@,
        ),
{
    if o.groups.len() > 0 {
        let ghost before = objects@.map_values(|o: Object| o@);
        objects.push(o);
        assert(objects@.map_values(|o: Object| o@) =~= before.push(o@));
    }
}

/// The polyline of `rs`: their position and texture-coordinate indices.
fn to_line(rs: Vec<IndexTuple>) -> (r: Vec<LineTuple>)
    ensures
        r@ == line_of(rs@),
{
    let mut out: Vec<LineTuple> = Vec::new();
    let mut i: usize = 0;
    while i < rs.len()
        invariant
            i <= rs@.len(),
            out@ == line_of(rs@.take(i as int)),
        decreases rs@.len() - i,
    {
        let r = rs[i];
        out.push(LineTuple(r.0, r.1));
        i += 1;
        assert(out@ =~= line_of(rs@.take(i as int)));
    }
    assert(rs@.take(rs@.len() as int) =~= rs@);
    out
}

/// Whether one of `toks[1..]` has a normal part.
fn normal_part_in(toks: &Vec<Vec<char>>) -> (r: bool)
    requires
        toks@.len() >= 1,
    ensures
        r == any_normal_part(views(toks@).skip(1)),
{
    let ghost args = views(toks@).skip(1);
    let mut i: usize = 1;
    while i < toks.len()
        invariant
            1 <= i <= toks@.len(),
            args == views(toks@).skip(1),
            forall|j: int| 0 <= j < i - 1 ==> !has_normal_part(#[trigger] args[j]),
        decreases toks@.len() - i,
    {
        assert(args[i - 1] == toks@[i as int]@);
        let ps = split_slashes(&toks[i]);
        assert(views(ps@).len() == ps@.len());
        if ps.len() == 3 {
            return true;
        }
        i += 1;
    }
    false
}

/// The model under construction, with the object and group being built.
struct ObjBuilder {
    data: ObjData,
    object: Object,
    group: Group,
}

impl ObjBuilder {
    spec fn progress(&self) -> ObjProgress {
        ObjProgress { data: self.data@, object: self.object@, group: self.group@ }
    }

    fn invalid(ln: usize, toks: &Vec<Vec<char>>) -> (e: ObjError)
        requires
            toks@.len() >= 1,
        ensures
            e.is_fault(ObjFault::InvalidValue(ln as int, join_spaced(views(toks@).skip(1)))),
    {
        ObjError::InvalidValue { line_number: ln, value: string_from_chars(&join_tokens(toks, 1)) }
    }

    fn open_object(&mut self, toks: &Vec<Vec<char>>)
        requires
            toks@.len() >= 1,
            directive_of(toks@[0]@) == Directive::Object,
        ensures
            obj_step(old(self).progress(), views(toks@), 0) == Ok::<ObjProgress, ObjFault>(
                final(self).progress(),
            ),
    {
        assert(views(toks@)[0] == toks@[0]@);
        assert(views(toks@).drop_first() =~= views(toks@).skip(1));
        let mut g = Group::new(default_string());
        core::mem::swap(&mut self.group, &mut g);
        let mut o = Object::new(name_from(toks));
        core::mem::swap(&mut self.object, &mut o);
        close_group_into(&mut o, g);
        close_object_into(&mut self.data.objects, o);
        assert(self.progress().data =~= finish_object(old(self).progress()));
    }

    fn open_group(&mut self, toks: &Vec<Vec<char>>)
        requires
            toks@.len() >= 1,
            directive_of(toks@[0]@) == Directive::Group,
        ensures
            obj_step(old(self).progress(), views(toks@), 0) == Ok::<ObjProgress, ObjFault>(
                final(self).progress(),
            ),
    {
        assert(views(toks@)[0] == toks@[0]@);
        assert(views(toks@).drop_first() =~= views(toks@).skip(1));
        let mut g = Group::new(name_from(toks));
        core::mem::swap(&mut self.group, &mut g);
        close_group_into(&mut self.object, g);
    }

    fn add_primitive(&mut self, toks: &Vec<Vec<char>>, ln: usize, is_face: bool) -> (r: Result<(), ObjError>)
        requires
            toks@.len() >= 1,
            is_face ==> directive_of(toks@[0]@) == Directive::Face,
            !is_face ==> directive_of(toks@[0]@) == Directive::Polyline,
        ensures
            match obj_step(old(self).progress(), views(toks@), ln as int) {
                Ok(st) => r is Ok && final(self).progress() == st,
                Err(f) => r matches Err(e) && e.is_fault(f),
            },
    {
        assert(views(toks@)[0] == toks@[0]@);
        assert(views(toks@).drop_first() =~= views(toks@).skip(1));
        if toks.len() - 1 < (if is_face { 3 } else { 2 }) {
            return Err(ObjError::MissingValue { line_number: ln });
        }
        if !is_face && normal_part_in(toks) {
            return Err(ObjError::LineHasNormalIndex { line_number: ln });
        }
        let rs = match parse_refs(
            toks,
            self.data.position.len(),
            self.data.texture.len(),
            self.data.normal.len(),
        ) {
            Ok(rs) => rs,
            Err(t) => {
                return Err(ObjError::InvalidValue { line_number: ln, value: string_from_chars(&t) })
            },
        };
        if is_face {
            let ghost before = self.group@;
            self.group.polys.push(SimplePolygon(rs));
            assert(self.group@.polys =~= before.polys.push(rs@));
            Ok(())
        } else {
            let l = to_line(rs);
            let ghost before = self.group@;
            self.group.lines.push(Line(l));
            assert(self.group@.lines =~= before.lines.push(l@));
            Ok(())
        }
    }

    fn add_reference(&mut self, toks: &Vec<Vec<char>>, ln: usize, is_use: bool) -> (r: Result<(), ObjError>)
        requires
            toks@.len() >= 1,
            is_use ==> directive_of(toks@[0]@) == Directive::UseMaterial,
            !is_use ==> directive_of(toks@[0]@) == Directive::MaterialLib,
        ensures
            match obj_step(old(self).progress(), views(toks@), ln as int) {
                Ok(st) => r is Ok && final(self).progress() == st,
                Err(f) => r matches Err(e) && e.is_fault(f),
            },
    {
        assert(views(toks@)[0] == toks@[0]@);
        assert(views(toks@).drop_first() =~= views(toks@).skip(1));
        if toks.len() == 1 {
            return Err(ObjError::MissingValue { line_number: ln });
        }
        let text = string_from_chars(&join_tokens(toks, 1));
        if is_use {
            self.group.material = Some(text);
        } else {
            self.data.material_libs.push(text);
            assert(self.data@.material_libs =~= old(self).data@.material_libs.push(
                join_spaced(views(toks@).skip(1)),
            ));
        }
        Ok(())
    }

    /// Applies line number `ln`, whose tokens are `toks`.
    #[verifier::rlimit(40)]
    fn step(&mut self, toks: &Vec<Vec<char>>, ln: usize) -> (r: Result<(), ObjError>)
        ensures
            match obj_step(old(self).progress(), views(toks@), ln as int) {
                Ok(st) => r is Ok && final(self).progress() == st,
                Err(f) => r matches Err(e) && e.is_fault(f),
            },
    {
        assert(views(toks@).len() == toks@.len());
        if toks.len() == 0 {
            return Ok(());
        }
        assert(views(toks@)[0] == toks@[0]@);
        assert(views(toks@).drop_first() =~= views(toks@).skip(1));
        let ghost args = views(toks@).skip(1);
        let key = &toks[0];
        let kind = directive_kind(key);
        if kind == Directive::Vertex || kind == Directive::Normal {
            match read_reals(toks, 3, 3) {
                Some(v) => {
                    let t = into_triple(v);
                    if kind == Directive::Vertex {
                        self.data.position.push(t);
                        assert(self.data@.position =~= old(self).data@.position.push(args));
                    } else {
                        self.data.normal.push(t);
                        assert(self.data@.normal =~= old(self).data@.normal.push(args));
                    }
                    Ok(())
                },
                None => Err(Self::invalid(ln, toks)),
            }
        } else if kind == Directive::TexCoord {
            match read_reals(toks, 2, 3) {
                Some(v) => {
                    self.data.texture.push(v);
                    assert(self.data@.texture =~= old(self).data@.texture.push(args));
                    Ok(())
                },
                None => Err(Self::invalid(ln, toks)),
            }
        } else if kind == Directive::Object {
            self.open_object(toks);
            Ok(())
        } else if kind == Directive::Group {
            self.open_group(toks);
            Ok(())
        } else if kind == Directive::Face || kind == Directive::Polyline {
            self.add_primitive(toks, ln, kind == Directive::Face)
        } else if kind == Directive::UseMaterial || kind == Directive::MaterialLib {
            self.add_reference(toks, ln, kind == Directive::UseMaterial)
        } else if key.len() > 0 && key[0] == '#' {
            Ok(())
        } else {
            Err(ObjError::InvalidInstruction { line_number: ln, instruction: string_from_chars(key) })
        }
    }
}

/// The model of `st` after an `o` line: the open object closed into it.
pub open spec fn finish_object(st: ObjProgress) -> ObjModel {
    ObjModel { objects: close_object(st.data.objects, close_group(st.object, st.group)), ..st.data }
}

fn default_string() -> (r: String)
    ensures
        r@ == default_name(),
{
    let d = vec!['d', 'e', 'f', 'a', 'u', 'l', 't'];
    assert(d@ =~= default_name());
    string_from_chars(&d)
}

impl ObjData {
    /// Reads the model described by the lines of a geometry file.
    ///
    /// A `v` or `vn` line takes exactly three numbers: a fourth (homogeneous)
    /// coordinate is rejected as an invalid value, as are missing ones. A `vt`
    /// line takes two or three.
    pub fn load(lines: &Vec<String>) -> (r: Result<ObjData, ObjError>)
        ensures
            match obj_parse(line_texts(lines@)) {
                Ok(m) => r matches Ok(d) && d@ == m,
                Err(f) => r matches Err(e) && e.is_fault(f),
            },
    {
        let ghost texts = line_texts(lines@);
        let mut b = ObjBuilder {
            data: ObjData::new(),
            object: Object::new(default_string()),
            group: Group::new(default_string()),
        };
        let mut k: usize = 0;
        while k < lines.len()
            invariant
                k <= lines@.len(),
                texts == line_texts(lines@),
                obj_prefix(texts, k as nat) == Ok::<ObjProgress, ObjFault>(b.progress()),
            decreases lines@.len() - k,
        {
            let toks = split_tokens(lines[k].as_str());
            assert(texts[k as int] == lines@[k as int]@);
            match b.step(&toks, k + 1) {
                Ok(()) => {},
                Err(e) => {
                    proof {
                        lemma_error_persists(texts, (k + 1) as nat, texts.len());
                    }
                    return Err(e);
                },
            }
            k += 1;
        }
        let ObjBuilder { mut data, mut object, group } = b;
        close_group_into(&mut object, group);
        close_object_into(&mut data.objects, object);
        assert(data@ =~= finish(obj_prefix(texts, texts.len())->Ok_0));
        Ok(data)
    }
}

pub proof fn lemma_pieces_without_slash(s: Seq<char>, cur: Seq<char>)
    requires
        forall|i: int| 0 <= i < s.len() ==> #[trigger] s[i] != '/',
    ensures
        pieces_from(s, cur) == seq![cur + s],
    decreases s.len(),
{
    if s.len() > 0 {
        let t = s.drop_first();
        assert forall|i: int| 0 <= i < t.len() implies #[trigger] t[i] != '/' by {
            assert(t[i] == s[i + 1]);
        }
        lemma_pieces_without_slash(t, cur.push(s[0]));
        assert(cur.push(s[0]) + t =~= cur + s);
    } else {
        assert(cur + s =~= cur);
    }
}

/// The reference `-k` names the element that `np - k + 1` names.
proof fn lemma_negative_ref(k: nat, np: int, nt: int, nn: int)
    requires
        1 <= k <= np <= i64::MAX,
        np <= usize::MAX,
    ensures
        vertex_ref(seq!['-'] + decimal(k), np, nt, nn) == vertex_ref(decimal((np - k + 1) as nat), np, nt, nn),
        vertex_ref(decimal((np - k + 1) as nat), np, nt, nn) == Some(IndexTuple((np - k) as usize, None, None)),
{
    let p = (np - k + 1) as nat;
    lemma_decimal_literal(k);
    lemma_decimal_literal(p);
    lemma_decimal_digits(k);
    lemma_decimal_digits(p);
    let a = seq!['-'] + decimal(k);
    let b = decimal(p);
    assert forall|i: int| 0 <= i < a.len() implies #[trigger] a[i] != '/' by {
        if i > 0 {
            assert(a[i] == decimal(k)[i - 1]);
            assert(is_digit(decimal(k)[i - 1]));
        }
    }
    assert forall|i: int| 0 <= i < b.len() implies #[trigger] b[i] != '/' by {
        assert(is_digit(b[i]));
    }
    lemma_pieces_without_slash(a, seq![]);
    lemma_pieces_without_slash(b, seq![]);
    assert(Seq::<char>::empty() + a =~= a);
    assert(Seq::<char>::empty() + b =~= b);
    assert(slash_pieces(a) == seq![a]);
    assert(slash_pieces(b) == seq![b]);
    assert(integer_in(a, i64::MIN as int, i64::MAX as int) == Some(-(k as int)));
    assert(integer_in(b, i64::MIN as int, i64::MAX as int) == Some(p as int));
    assert(resolve_text(a, np) == Some(np - k));
    assert(resolve_text(b, np) == Some(np - k));
}

/// With `np` positions read so far, references written as negative numbers
/// (`-k`, counted back from the last position) resolve to the same vertices
/// as the same references written one-based (`np - k + 1`).
pub proof fn lemma_negative_refs_resolve_as_positive(ks: Seq<nat>, np: int, nt: int, nn: int)
    requires
        np <= i64::MAX,
        np <= usize::MAX,
        forall|i: int| 0 <= i < ks.len() ==> 1 <= #[trigger] ks[i] <= np,
    ensures
        refs_of(ks.map_values(|k: nat| seq!['-'] + decimal(k)), np, nt, nn) == refs_of(
            ks.map_values(|k: nat| decimal((np - k + 1) as nat)),
            np,
            nt,
            nn,
        ),
        refs_of(ks.map_values(|k: nat| seq!['-'] + decimal(k)), np, nt, nn) is Ok,
    decreases ks.len(),
{
    let neg = ks.map_values(|k: nat| seq!['-'] + decimal(k));
    let pos = ks.map_values(|k: nat| decimal((np - k + 1) as nat));
    if ks.len() > 0 {
        let rest = ks.drop_last();
        lemma_negative_refs_resolve_as_positive(rest, np, nt, nn);
        assert(neg.drop_last() =~= rest.map_values(|k: nat| seq!['-'] + decimal(k)));
        assert(pos.drop_last() =~= rest.map_values(|k: nat| decimal((np - k + 1) as nat)));
        lemma_negative_ref(ks.last(), np, nt, nn);
    }
}

} // verus!
