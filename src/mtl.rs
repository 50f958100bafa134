//! The material-description format: named materials with colour,
//! illumination and texture-map fields.
use vstd::prelude::*;
use crate::number::{Real, is_float_literal, integer_in, parse_i64};
use crate::text::{append_chars, chars_of, tokens, views, join_spaced, join_tokens, split_tokens, string_from_chars};

verus! {

#[verifier::external_type_specification]
#[verifier::external_body]
pub struct ExIoError(std::io::Error);

/// A single material.
pub struct Material {
    pub name: String,
    // colour and illumination
    pub ka: Option<[Real; 3]>,
    pub kd: Option<[Real; 3]>,
    pub ks: Option<[Real; 3]>,
    pub ke: Option<[Real; 3]>,
    pub km: Option<Real>,
    pub tf: Option<[Real; 3]>,
    pub ns: Option<Real>,
    pub ni: Option<Real>,
    pub tr: Option<Real>,
    pub d: Option<Real>,
    pub illum: Option<i32>,
    // texture and reflection maps
    pub map_ka: Option<String>,
    pub map_kd: Option<String>,
    pub map_ks: Option<String>,
    pub map_ke: Option<String>,
    pub map_ns: Option<String>,
    pub map_d: Option<String>,
    pub map_bump: Option<String>,
    pub map_refl: Option<String>,
}

/// What a material holds: each value by the text that denotes it.
pub struct MaterialModel {
    pub name: Seq<char>,
    pub ka: Option<Seq<Seq<char>>>,
    pub kd: Option<Seq<Seq<char>>>,
    pub ks: Option<Seq<Seq<char>>>,
    pub ke: Option<Seq<Seq<char>>>,
    pub km: Option<Seq<char>>,
    pub tf: Option<Seq<Seq<char>>>,
    pub ns: Option<Seq<char>>,
    pub ni: Option<Seq<char>>,
    pub tr: Option<Seq<char>>,
    pub d: Option<Seq<char>>,
    pub illum: Option<int>,
    pub map_ka: Option<Seq<char>>,
    pub map_kd: Option<Seq<char>>,
    pub map_ks: Option<Seq<char>>,
    pub map_ke: Option<Seq<char>>,
    pub map_ns: Option<Seq<char>>,
    pub map_d: Option<Seq<char>>,
    pub map_bump: Option<Seq<char>>,
    pub map_refl: Option<Seq<char>>,
}

pub open spec fn triple_model(t: [Real; 3]) -> Seq<Seq<char>> {
    seq![t[0]@, t[1]@, t[2]@]
}

pub open spec fn opt_triple(t: Option<[Real; 3]>) -> Option<Seq<Seq<char>>> {
    match t {
        Some(v) => Some(triple_model(v)),
        None => None,
    }
}

pub open spec fn opt_real(t: Option<Real>) -> Option<Seq<char>> {
    match t {
        Some(v) => Some(v@),
        None => None,
    }
}

pub open spec fn opt_text(t: Option<String>) -> Option<Seq<char>> {
    match t {
        Some(v) => Some(v@),
        None => None,
    }
}

pub open spec fn opt_int(t: Option<i32>) -> Option<int> {
    match t {
        Some(v) => Some(v as int),
        None => None,
    }
}

impl View for Material {
    type V = MaterialModel;

    open spec fn view(&self) -> MaterialModel {
        MaterialModel {
            name: self.name@,
            ka: opt_triple(self.ka),
            kd: opt_triple(self.kd),
            ks: opt_triple(self.ks),
            ke: opt_triple(self.ke),
            km: opt_real(self.km),
            tf: opt_triple(self.tf),
            ns: opt_real(self.ns),
            ni: opt_real(self.ni),
            tr: opt_real(self.tr),
            d: opt_real(self.d),
            illum: opt_int(self.illum),
            map_ka: opt_text(self.map_ka),
            map_kd: opt_text(self.map_kd),
            map_ks: opt_text(self.map_ks),
            map_ke: opt_text(self.map_ke),
            map_ns: opt_text(self.map_ns),
            map_d: opt_text(self.map_d),
            map_bump: opt_text(self.map_bump),
            map_refl: opt_text(self.map_refl),
        }
    }
}

/// A material with the given name and no field set.
pub open spec fn empty_material(name: Seq<char>) -> MaterialModel {
    MaterialModel {
        name,
        ka: None,
        kd: None,
        ks: None,
        ke: None,
        km: None,
        tf: None,
        ns: None,
        ni: None,
        tr: None,
        d: None,
        illum: None,
        map_ka: None,
        map_kd: None,
        map_ks: None,
        map_ke: None,
        map_ns: None,
        map_d: None,
        map_bump: None,
        map_refl: None,
    }
}

impl Material {
    pub fn new(name: String) -> (r: Material)
        ensures
            r@ == empty_material(name@),
    {
        Material {
            name,
            ka: None,
            kd: None,
            ks: None,
            ke: None,
            km: None,
            tf: None,
            ns: None,
            ni: None,
            tr: None,
            d: None,
            illum: None,
            map_ka: None,
            map_kd: None,
            map_ks: None,
            map_ke: None,
            map_ns: None,
            map_d: None,
            map_bump: None,
            map_refl: None,
        }
    }
}

/// The type of a value that a directive lacks.
#[derive(Debug, Clone, Copy, PartialEq, Eq, Structural)]
pub enum MtlMissingType {
    /// i32
    I32,
    /// f32
    F32,
    /// String
    String,
}

impl MtlMissingType {
    /// The name of the type.
    pub fn label(&self) -> (r: &'static str)
        ensures
            r@ == match self {
                MtlMissingType::I32 => "i32"@,
                MtlMissingType::F32 => "f32"@,
                MtlMissingType::String => "String"@,
            },
    {
        match self {
            MtlMissingType::I32 => "i32",
            MtlMissingType::F32 => "f32",
            MtlMissingType::String => "String",
        }
    }
}

/// Errors reading a material file.
#[derive(Debug)]
pub enum MtlError {
    /// Reading the underlying stream failed.
    Io(std::io::Error),
    /// The directive is not one of the format.
    InvalidInstruction(String),
    /// A value is present but does not parse, or the directive has the wrong number of values.
    InvalidValue(String),
    /// `newmtl` without a name.
    MissingMaterialName,
    /// The directive requires a value that is absent.
    MissingValue(MtlMissingType),
}

impl From<std::io::Error> for MtlError {
    fn from(e: std::io::Error) -> (r: MtlError) {
        MtlError::Io(e)
    }
}

impl vstd::std_specs::convert::FromSpecImpl<std::io::Error> for MtlError {
    open spec fn obeys_from_spec() -> bool {
        true
    }

    open spec fn from_spec(e: std::io::Error) -> MtlError {
        MtlError::Io(e)
    }
}

/// The name of a missing value's type.
pub open spec fn missing_type_text(t: MtlMissingType) -> Seq<char> {
    match t {
        MtlMissingType::I32 => "i32"@,
        MtlMissingType::F32 => "f32"@,
        MtlMissingType::String => "String"@,
    }
}

impl MtlError {
    /// A sentence describing the error.
    pub fn message(&self) -> (r: String)
        ensures
            match self {
                MtlError::Io(_) => {
                    let p = "I/O error loading a .mtl file: "@;
                    r@.len() >= p.len() && r@.subrange(0, p.len() as int) == p
                },
                MtlError::InvalidInstruction(i) => r@ == "Unsupported mtl instruction: "@ + i@,
                MtlError::InvalidValue(v) => r@ == "Attempted to parse the value '"@ + v@
                    + "' but failed."@,
                MtlError::MissingMaterialName => r@ == "newmtl issued, but no name provided."@,
                MtlError::MissingValue(t) => r@ == "Instruction is missing a value of type '"@
                    + missing_type_text(*t) + "'"@,
            },
    {
        match self {
            MtlError::Io(e) => {
                let mut out = chars_of("I/O error loading a .mtl file: ");
                let ghost p = out@;
                let detail = e.to_string();
                append_chars(&mut out, &chars_of(detail.as_str()));
                assert(out@.subrange(0, p.len() as int) =~= p);
                string_from_chars(&out)
            },
            MtlError::InvalidInstruction(i) => {
                let mut out = chars_of("Unsupported mtl instruction: ");
                append_chars(&mut out, &chars_of(i.as_str()));
                string_from_chars(&out)
            },
            MtlError::InvalidValue(v) => {
                let mut out = chars_of("Attempted to parse the value '");
                append_chars(&mut out, &chars_of(v.as_str()));
                append_chars(&mut out, &chars_of("' but failed."));
                string_from_chars(&out)
            },
            MtlError::MissingMaterialName => {
                string_from_chars(&chars_of("newmtl issued, but no name provided."))
            },
            MtlError::MissingValue(t) => {
                let mut out = chars_of("Instruction is missing a value of type '");
                append_chars(&mut out, &chars_of(t.label()));
                append_chars(&mut out, &chars_of("'"));
                string_from_chars(&out)
            },
        }
    }
}

/// An error of the material parser, by the text it carries.
pub enum MtlFault {
    InvalidInstruction(Seq<char>),
    InvalidValue(Seq<char>),
    MissingMaterialName,
    MissingValue(MtlMissingType),
}

impl MtlError {
    /// The error is the parser error `f`.
    pub open spec fn is_fault(&self, f: MtlFault) -> bool {
        match (self, f) {
            (MtlError::InvalidInstruction(a), MtlFault::InvalidInstruction(b)) => a@ == b,
            (MtlError::InvalidValue(a), MtlFault::InvalidValue(b)) => a@ == b,
            (MtlError::MissingMaterialName, MtlFault::MissingMaterialName) => true,
            (MtlError::MissingValue(a), MtlFault::MissingValue(b)) => a == b,
            _ => false,
        }
    }
}

/// The fields that directives set.
#[derive(Clone, Copy, PartialEq, Eq, Structural)]
pub enum Field {
    Ka,
    Kd,
    Ks,
    Ke,
    Tf,
    Km,
    Ns,
    Ni,
    D,
    Tr,
    Illum,
    MapKa,
    MapKd,
    MapKs,
    MapKe,
    MapNs,
    MapD,
    MapBump,
    MapRefl,
}

/// The field a directive sets, if it is a field directive.
pub open spec fn field_of(key: Seq<char>) -> Option<Field> {
    if key == "Ka"@ { Some(Field::Ka) }
    else if key == "Kd"@ { Some(Field::Kd) }
    else if key == "Ks"@ { Some(Field::Ks) }
    else if key == "Ke"@ { Some(Field::Ke) }
    else if key == "Tf"@ { Some(Field::Tf) }
    else if key == "Km"@ { Some(Field::Km) }
    else if key == "Ns"@ { Some(Field::Ns) }
    else if key == "Ni"@ { Some(Field::Ni) }
    else if key == "d"@ { Some(Field::D) }
    else if key == "Tr"@ { Some(Field::Tr) }
    else if key == "illum"@ { Some(Field::Illum) }
    else if key == "map_Ka"@ { Some(Field::MapKa) }
    else if key == "map_Kd"@ { Some(Field::MapKd) }
    else if key == "map_Ks"@ { Some(Field::MapKs) }
    else if key == "map_Ke"@ { Some(Field::MapKe) }
    else if key == "map_Ns"@ { Some(Field::MapNs) }
    else if key == "map_d"@ { Some(Field::MapD) }
    else if key == "map_Bump"@ || key == "map_bump"@ || key == "bump"@ { Some(Field::MapBump) }
    else if key == "map_refl"@ { Some(Field::MapRefl) }
    else { None }
}

/// Whether the characters of `t` are those of `w`.
pub fn is_word(t: &Vec<char>, w: &str) -> (r: bool)
    ensures
        r == (t@ == w@),
{
    let n = w.unicode_len();
    if t.len() != n {
        return false;
    }
    let mut i: usize = 0;
    while i < n
        invariant
            n == w@.len(),
            n == t@.len(),
            i <= n,
            forall|j: int| 0 <= j < i ==> t@[j] == w@[j],
        decreases n - i,
    {
        if t[i] != w.get_char(i) {
            return false;
        }
        i += 1;
    }
    assert(t@ =~= w@);
    true
}

fn field_kind(key: &Vec<char>) -> (r: Option<Field>)
    ensures
        r == field_of(key@),
{
    if is_word(key, "Ka") { Some(Field::Ka) }
    else if is_word(key, "Kd") { Some(Field::Kd) }
    else if is_word(key, "Ks") { Some(Field::Ks) }
    else if is_word(key, "Ke") { Some(Field::Ke) }
    else if is_word(key, "Tf") { Some(Field::Tf) }
    else if is_word(key, "Km") { Some(Field::Km) }
    else if is_word(key, "Ns") { Some(Field::Ns) }
    else if is_word(key, "Ni") { Some(Field::Ni) }
    else if is_word(key, "d") { Some(Field::D) }
    else if is_word(key, "Tr") { Some(Field::Tr) }
    else if is_word(key, "illum") { Some(Field::Illum) }
    else if is_word(key, "map_Ka") { Some(Field::MapKa) }
    else if is_word(key, "map_Kd") { Some(Field::MapKd) }
    else if is_word(key, "map_Ks") { Some(Field::MapKs) }
    else if is_word(key, "map_Ke") { Some(Field::MapKe) }
    else if is_word(key, "map_Ns") { Some(Field::MapNs) }
    else if is_word(key, "map_d") { Some(Field::MapD) }
    else if is_word(key, "map_Bump") || is_word(key, "map_bump") || is_word(key, "bump") { Some(Field::MapBump) }
    else if is_word(key, "map_refl") { Some(Field::MapRefl) }
    else { None }
}

/// Three floating-point literals, exactly.
pub open spec fn read_vector3(args: Seq<Seq<char>>) -> Result<Seq<Seq<char>>, MtlFault> {
    if args.len() == 3 && is_float_literal(args[0]) && is_float_literal(args[1])
        && is_float_literal(args[2]) {
        Ok(args)
    } else {
        Err(MtlFault::InvalidValue(join_spaced(args)))
    }
}

/// One floating-point literal, exactly: a first token that does not parse
/// is reported alone; extra tokens after a good one are reported together.
pub open spec fn read_float(args: Seq<Seq<char>>) -> Result<Seq<char>, MtlFault> {
    if args.len() == 0 {
        Err(MtlFault::MissingValue(MtlMissingType::F32))
    } else if !is_float_literal(args[0]) {
        Err(MtlFault::InvalidValue(args[0]))
    } else if args.len() > 1 {
        Err(MtlFault::InvalidValue(join_spaced(args)))
    } else {
        Ok(args[0])
    }
}

/// One integer literal within the range of `i32`, exactly: a first token
/// that does not parse is reported alone; extra tokens after a good one are
/// reported together.
pub open spec fn read_int(args: Seq<Seq<char>>) -> Result<int, MtlFault> {
    if args.len() == 0 {
        Err(MtlFault::MissingValue(MtlMissingType::I32))
    } else if integer_in(args[0], i32::MIN as int, i32::MAX as int) is None {
        Err(MtlFault::InvalidValue(args[0]))
    } else if args.len() > 1 {
        Err(MtlFault::InvalidValue(join_spaced(args)))
    } else {
        Ok(integer_in(args[0], i32::MIN as int, i32::MAX as int)->0)
    }
}

/// The remaining tokens, at least one, joined with single spaces.
pub open spec fn read_rest(args: Seq<Seq<char>>) -> Result<Seq<char>, MtlFault> {
    if args.len() == 0 {
        Err(MtlFault::MissingValue(MtlMissingType::String))
    } else {
        Ok(join_spaced(args))
    }
}

fn invalid_value(toks: &Vec<Vec<char>>) -> (e: MtlError)
    requires
        toks@.len() >= 1,
    ensures
        e.is_fault(MtlFault::InvalidValue(join_spaced(views(toks@).skip(1)))),
{
    MtlError::InvalidValue(string_from_chars(&join_tokens(toks, 1)))
}

/// The tokens of a non-blank line: the directive, then its arguments.
pub struct Parser {
    pub tokens: Vec<Vec<char>>,
}

impl Parser {
    /// The parser holds a directive.
    pub open spec fn wf(&self) -> bool {
        self.tokens@.len() >= 1
    }

    /// The tokens after the directive.
    pub open spec fn args(&self) -> Seq<Seq<char>> {
        views(self.tokens@).skip(1)
    }

    /// The parser of a line; `None` for a line without tokens.
    pub fn new(line: &str) -> (r: Option<Parser>)
        ensures
            r is None <==> tokens(line@).len() == 0,
            r matches Some(p) ==> p.wf() && views(p.tokens@) == tokens(line@),
    {
        let toks = split_tokens(line);
        if toks.len() == 0 {
            None
        } else {
            Some(Parser { tokens: toks })
        }
    }

    /// Reads the arguments as three floating-point literals, exactly.
    pub fn get_vec(&self) -> (r: Result<[Real; 3], MtlError>)
        requires
            self.wf(),
        ensures
            match read_vector3(self.args()) {
                Ok(v) => r matches Ok(t) && triple_model(t) == v,
                Err(f) => r matches Err(e) && e.is_fault(f),
            },
    {
        let toks = &self.tokens;
        let ghost args = views(toks@).skip(1);
        if toks.len() == 4 {
            assert(args[0] == toks@[1]@ && args[1] == toks@[2]@ && args[2] == toks@[3]@);
            let x = Real::from_chars(&toks[1]);
            let y = Real::from_chars(&toks[2]);
            let z = Real::from_chars(&toks[3]);
            match (x, y, z) {
                (Some(x), Some(y), Some(z)) => {
                    let t = [x, y, z];
                    assert(triple_model(t) =~= args);
                    return Ok(t);
                },
                _ => {},
            }
        }
        Err(invalid_value(toks))
    }

    /// Reads the arguments as one floating-point literal, exactly.
    pub fn get_f32(&self) -> (r: Result<Real, MtlError>)
        requires
            self.wf(),
        ensures
            match read_float(self.args()) {
                Ok(v) => r matches Ok(t) && t@ == v,
                Err(f) => r matches Err(e) && e.is_fault(f),
            },
    {
        let toks = &self.tokens;
        let ghost args = views(toks@).skip(1);
        if toks.len() == 1 {
            return Err(MtlError::MissingValue(MtlMissingType::F32));
        }
        assert(args[0] == toks@[1]@);
        match Real::from_chars(&toks[1]) {
            Some(x) => {
                if toks.len() == 2 {
                    Ok(x)
                } else {
                    Err(invalid_value(toks))
                }
            },
            None => Err(MtlError::InvalidValue(string_from_chars(&toks[1]))),
        }
    }

    /// Reads the arguments as one integer literal within the range of `i32`, exactly.
    pub fn get_i32(&self) -> (r: Result<i32, MtlError>)
        requires
            self.wf(),
        ensures
            match read_int(self.args()) {
                Ok(v) => r matches Ok(t) && t as int == v,
                Err(f) => r matches Err(e) && e.is_fault(f),
            },
    {
        let toks = &self.tokens;
        let ghost args = views(toks@).skip(1);
        if toks.len() == 1 {
            return Err(MtlError::MissingValue(MtlMissingType::I32));
        }
        assert(args[0] == toks@[1]@);
        match parse_i64(&toks[1]) {
            Some(v) if i32::MIN as i64 <= v && v <= i32::MAX as i64 => {
                if toks.len() == 2 {
                    Ok(v as i32)
                } else {
                    Err(invalid_value(toks))
                }
            },
            _ => Err(MtlError::InvalidValue(string_from_chars(&toks[1]))),
        }
    }

    /// The arguments, at least one, joined with single spaces.
    pub fn into_string(self) -> (r: Result<String, MtlError>)
        requires
            self.wf(),
        ensures
            match read_rest(self.args()) {
                Ok(v) => r matches Ok(t) && t@ == v,
                Err(f) => r matches Err(e) && e.is_fault(f),
            },
    {
        let toks = &self.tokens;
        if toks.len() == 1 {
            return Err(MtlError::MissingValue(MtlMissingType::String));
        }
        Ok(string_from_chars(&join_tokens(toks, 1)))
    }
}

/// `m` after the field directive for `f` with arguments `args`.
pub open spec fn set_field(m: MaterialModel, f: Field, args: Seq<Seq<char>>) -> Result<
    MaterialModel,
    MtlFault,
> {
    match f {
        Field::Ka | Field::Kd | Field::Ks | Field::Ke | Field::Tf => match read_vector3(args) {
            Ok(v) => Ok(
                match f {
                    Field::Ka => MaterialModel { ka: Some(v), ..m },
                    Field::Kd => MaterialModel { kd: Some(v), ..m },
                    Field::Ks => MaterialModel { ks: Some(v), ..m },
                    Field::Ke => MaterialModel { ke: Some(v), ..m },
                    _ => MaterialModel { tf: Some(v), ..m },
                },
            ),
            Err(e) => Err(e),
        },
        Field::Km | Field::Ns | Field::Ni | Field::D | Field::Tr => match read_float(args) {
            Ok(v) => Ok(
                match f {
                    Field::Km => MaterialModel { km: Some(v), ..m },
                    Field::Ns => MaterialModel { ns: Some(v), ..m },
                    Field::Ni => MaterialModel { ni: Some(v), ..m },
                    Field::D => MaterialModel { d: Some(v), ..m },
                    _ => MaterialModel { tr: Some(v), ..m },
                },
            ),
            Err(e) => Err(e),
        },
        Field::Illum => match read_int(args) {
            Ok(v) => Ok(MaterialModel { illum: Some(v), ..m }),
            Err(e) => Err(e),
        },
        _ => match read_rest(args) {
            Ok(v) => Ok(
                match f {
                    Field::MapKa => MaterialModel { map_ka: Some(v), ..m },
                    Field::MapKd => MaterialModel { map_kd: Some(v), ..m },
                    Field::MapKs => MaterialModel { map_ks: Some(v), ..m },
                    Field::MapKe => MaterialModel { map_ke: Some(v), ..m },
                    Field::MapNs => MaterialModel { map_ns: Some(v), ..m },
                    Field::MapD => MaterialModel { map_d: Some(v), ..m },
                    Field::MapBump => MaterialModel { map_bump: Some(v), ..m },
                    _ => MaterialModel { map_refl: Some(v), ..m },
                },
            ),
            Err(e) => Err(e),
        },
    }
}

impl Material {
    /// Applies the field directive for `f` whose tokens are `toks`.
    fn apply(&mut self, f: Field, p: Parser) -> (r: Result<(), MtlError>)
        requires
            p.wf(),
        ensures
            match set_field(old(self)@, f, p.args()) {
                Ok(m) => r is Ok && final(self)@ == m,
                Err(e) => r matches Err(x) && x.is_fault(e),
            },
    {
        match f {
            Field::Ka | Field::Kd | Field::Ks | Field::Ke | Field::Tf => {
                let v = p.get_vec()?;
                match f {
                    Field::Ka => self.ka = Some(v),
                    Field::Kd => self.kd = Some(v),
                    Field::Ks => self.ks = Some(v),
                    Field::Ke => self.ke = Some(v),
                    _ => self.tf = Some(v),
                }
            },
            Field::Km | Field::Ns | Field::Ni | Field::D | Field::Tr => {
                let v = p.get_f32()?;
                match f {
                    Field::Km => self.km = Some(v),
                    Field::Ns => self.ns = Some(v),
                    Field::Ni => self.ni = Some(v),
                    Field::D => self.d = Some(v),
                    _ => self.tr = Some(v),
                }
            },
            Field::Illum => {
                let v = p.get_i32()?;
                self.illum = Some(v);
            },
            _ => {
                let v = p.into_string()?;
                match f {
                    Field::MapKa => self.map_ka = Some(v),
                    Field::MapKd => self.map_kd = Some(v),
                    Field::MapKs => self.map_ks = Some(v),
                    Field::MapKe => self.map_ke = Some(v),
                    Field::MapNs => self.map_ns = Some(v),
                    Field::MapD => self.map_d = Some(v),
                    Field::MapBump => self.map_bump = Some(v),
                    _ => self.map_refl = Some(v),
                }
            },
        }
        Ok(())
    }
}

/// The parser's state between lines: the materials completed so far and
/// the one being built, if any.
pub struct MtlProgress {
    pub done: Seq<MaterialModel>,
    pub current: Option<MaterialModel>,
}

/// The completed materials, the one being built appended.
pub open spec fn flushed(st: MtlProgress) -> Seq<MaterialModel> {
    match st.current {
        Some(m) => st.done.push(m),
        None => st.done,
    }
}

pub open spec fn is_comment(key: Seq<char>) -> bool {
    key.len() > 0 && key[0] == '#'
}

/// The state after a line whose tokens are `toks`.
pub open spec fn mtl_step(st: MtlProgress, toks: Seq<Seq<char>>) -> Result<MtlProgress, MtlFault> {
    if toks.len() == 0 {
        Ok(st)
    } else if toks[0] == "newmtl"@ {
        if toks.len() < 2 {
            Err(MtlFault::MissingMaterialName)
        } else {
            Ok(MtlProgress { done: flushed(st), current: Some(empty_material(toks[1])) })
        }
    } else {
        match field_of(toks[0]) {
            Some(f) => match st.current {
                Some(m) => match set_field(m, f, toks.drop_first()) {
                    Ok(m2) => Ok(MtlProgress { current: Some(m2), ..st }),
                    Err(e) => Err(e),
                },
                // checked, then dropped: no material is open
                None => match set_field(empty_material(seq![]), f, toks.drop_first()) {
                    Ok(_) => Ok(st),
                    Err(e) => Err(e),
                },
            },
            None => if is_comment(toks[0]) {
                Ok(st)
            } else {
                Err(MtlFault::InvalidInstruction(toks[0]))
            },
        }
    }
}

/// The state after the first `k` lines.
pub open spec fn mtl_prefix(lines: Seq<Seq<char>>, k: nat) -> Result<MtlProgress, MtlFault>
    decreases k,
{
    if k == 0 {
        Ok(MtlProgress { done: seq![], current: None })
    } else {
        match mtl_prefix(lines, (k - 1) as nat) {
            Ok(st) => mtl_step(st, tokens(lines[k - 1])),
            Err(e) => Err(e),
        }
    }
}

/// The materials that the lines describe, or the first error in them.
pub open spec fn mtl_parse(lines: Seq<Seq<char>>) -> Result<Seq<MaterialModel>, MtlFault> {
    match mtl_prefix(lines, lines.len()) {
        Ok(st) => Ok(flushed(st)),
        Err(e) => Err(e),
    }
}

pub open spec fn line_texts(lines: Seq<String>) -> Seq<Seq<char>> {
    lines.map_values(|l: String| l@)
}

/// The materials of a material file, in file order.
pub struct Mtl {
    pub materials: Vec<Material>,
}

pub open spec fn material_models(v: Seq<Material>) -> Seq<MaterialModel> {
    v.map_values(|m: Material| m@)
}

impl View for Mtl {
    type V = Seq<MaterialModel>;

    open spec fn view(&self) -> Seq<MaterialModel> {
        material_models(self.materials@)
    }
}

impl Mtl {
    pub fn new() -> (r: Mtl)
        ensures
            r@ == Seq::<MaterialModel>::empty(),
    {
        let r = Mtl { materials: Vec::new() };
        assert(r@ =~= Seq::<MaterialModel>::empty());
        r
    }

    /// The parser's state: these materials, then `current` being built.
    pub open spec fn progress(&self, current: Option<Material>) -> MtlProgress {
        MtlProgress {
            done: self@,
            current: match current {
                Some(m) => Some(m@),
                None => None,
            },
        }
    }

    /// Applies one non-blank line.
    fn step(&mut self, material: &mut Option<Material>, p: Parser) -> (r: Result<(), MtlError>)
        requires
            p.wf(),
        ensures
            match mtl_step(old(self).progress(*old(material)), views(p.tokens@)) {
                Ok(st) => r is Ok && final(self).progress(*final(material)) == st,
                Err(f) => r matches Err(e) && e.is_fault(f),
            },
    {
        let ghost toks = views(p.tokens@);
        assert(toks.len() == p.tokens@.len());
        assert(toks[0] == p.tokens@[0]@);
        assert(toks.drop_first() =~= p.args());
        if is_word(&p.tokens[0], "newmtl") {
            if p.tokens.len() < 2 {
                return Err(MtlError::MissingMaterialName);
            }
            assert(toks[1] == p.tokens@[1]@);
            let ghost before = self@;
            match material.take() {
                Some(m) => {
                    self.materials.push(m);
                    assert(self@ =~= before.push(m@));
                },
                None => {},
            }
            *material = Some(Material::new(string_from_chars(&p.tokens[1])));
            return Ok(());
        }
        match field_kind(&p.tokens[0]) {
            Some(f) => {
                match material {
                    Some(m) => m.apply(f, p),
                    None => {
                        let mut scratch = Material::new(String::new());
                        scratch.apply(f, p)
                    },
                }
            },
            None => {
                if p.tokens[0].len() > 0 && p.tokens[0][0] == '#' {
                    Ok(())
                } else {
                    Err(MtlError::InvalidInstruction(string_from_chars(&p.tokens[0])))
                }
            },
        }
    }

    /// Reads the materials described by the lines of a material file.
    pub fn load(lines: &Vec<String>) -> (r: Result<Mtl, MtlError>)
        ensures
            match mtl_parse(line_texts(lines@)) {
                Ok(ms) => r matches Ok(m) && m@ == ms,
                Err(f) => r matches Err(e) && e.is_fault(f),
            },
    {
        let ghost texts = line_texts(lines@);
        let mut mtl = Mtl::new();
        let mut material: Option<Material> = None;
        let mut k: usize = 0;
        while k < lines.len()
            invariant
                k <= lines@.len(),
                texts == line_texts(lines@),
                mtl_prefix(texts, k as nat) == Ok::<MtlProgress, MtlFault>(
                    mtl.progress(material),
                ),
            decreases lines@.len() - k,
        {
            assert(texts[k as int] == lines@[k as int]@);
            let step_result = match Parser::new(lines[k].as_str()) {
                None => Ok(()),
                Some(p) => mtl.step(&mut material, p),
            };
            match step_result {
                Ok(()) => {},
                Err(e) => {
                    proof {
                        lemma_error_persists(texts, (k + 1) as nat, texts.len());
                    }
                    return Err(e);
                },
            }
            k += 1;
        }
        let ghost before = mtl@;
        match material {
            Some(m) => {
                mtl.materials.push(m);
                assert(mtl@ =~= before.push(m@));
            },
            None => {},
        }
        Ok(mtl)
    }
}

/// Once a line fails, every longer prefix fails with the same error.
proof fn lemma_error_persists(lines: Seq<Seq<char>>, k: nat, n: nat)
    requires
        k <= n,
        mtl_prefix(lines, k) is Err,
    ensures
        mtl_prefix(lines, n) == mtl_prefix(lines, k),
    decreases n - k,
{
    if k < n {
        lemma_error_persists(lines, k, (n - 1) as nat);
    }
}

/// A colour or filter vector reads exactly three floating-point literals:
/// it succeeds on three literals, and fails on two or four tokens whatever
/// they hold.
pub proof fn lemma_vector_arity(args: Seq<Seq<char>>)
    ensures
        read_vector3(args) is Ok <==> (args.len() == 3 && forall|i: int|
            0 <= i < 3 ==> is_float_literal(#[trigger] args[i])),
        args.len() == 2 ==> read_vector3(args) is Err,
        args.len() == 4 ==> read_vector3(args) is Err,
{
    if args.len() == 3 && forall|i: int| 0 <= i < 3 ==> is_float_literal(#[trigger] args[i]) {
        assert(is_float_literal(args[0]) && is_float_literal(args[1]) && is_float_literal(args[2]));
    }
}

/// A field directive met while no material is open is checked, and when it
/// is well formed it changes nothing: no error, and the completed materials
/// stay as they were.
pub proof fn lemma_field_without_material(st: MtlProgress, toks: Seq<Seq<char>>)
    requires
        st.current is None,
        toks.len() >= 1,
        field_of(toks[0]) is Some,
    ensures
        set_field(empty_material(seq![]), field_of(toks[0])->0, toks.drop_first()) is Ok
            ==> mtl_step(st, toks) == Ok::<MtlProgress, MtlFault>(st),
        set_field(empty_material(seq![]), field_of(toks[0])->0, toks.drop_first()) is Err
            ==> mtl_step(st, toks) is Err,
{
    reveal_strlit("newmtl");
    reveal_strlit("Ka");
    reveal_strlit("Kd");
    reveal_strlit("Ks");
    reveal_strlit("Ke");
    reveal_strlit("Tf");
    reveal_strlit("Km");
    reveal_strlit("Ns");
    reveal_strlit("Ni");
    reveal_strlit("d");
    reveal_strlit("Tr");
    reveal_strlit("illum");
    reveal_strlit("map_Ka");
    reveal_strlit("map_Kd");
    reveal_strlit("map_Ks");
    reveal_strlit("map_Ke");
    reveal_strlit("map_Ns");
    reveal_strlit("map_d");
    reveal_strlit("map_Bump");
    reveal_strlit("map_bump");
    reveal_strlit("bump");
    reveal_strlit("map_refl");
    let n = "newmtl"@;
    assert(n.len() == 6 && n[0] == 'n');
    assert("map_Ka"@[0] == 'm' && "map_Kd"@[0] == 'm' && "map_Ks"@[0] == 'm' && "map_Ke"@[0] == 'm');
    assert("map_Ns"@[0] == 'm');
    assert(field_of(n) is None);
}

/// The parser run from `st` over the lines `ls`.
pub open spec fn mtl_run(st: MtlProgress, ls: Seq<Seq<char>>) -> Result<MtlProgress, MtlFault>
    decreases ls.len(),
{
    if ls.len() == 0 {
        Ok(st)
    } else {
        match mtl_run(st, ls.drop_last()) {
            Ok(s2) => mtl_step(s2, tokens(ls.last())),
            Err(e) => Err(e),
        }
    }
}

pub open spec fn mtl_start() -> MtlProgress {
    MtlProgress { done: seq![], current: None }
}

proof fn lemma_mtl_prefix_is_run(ls: Seq<Seq<char>>, n: nat)
    requires
        n <= ls.len(),
    ensures
        mtl_prefix(ls, n) == mtl_run(mtl_start(), ls.take(n as int)),
    decreases n,
{
    if n > 0 {
        lemma_mtl_prefix_is_run(ls, (n - 1) as nat);
        assert(ls.take(n as int).drop_last() =~= ls.take(n - 1));
        assert(ls.take(n as int).last() == ls[n - 1]);
    } else {
        assert(ls.take(0) =~= seq![]);
    }
}

proof fn lemma_mtl_run_append(st: MtlProgress, a: Seq<Seq<char>>, b: Seq<Seq<char>>)
    requires
        mtl_run(st, a) is Ok,
    ensures
        mtl_run(st, a + b) == mtl_run(mtl_run(st, a)->Ok_0, b),
    decreases b.len(),
{
    if b.len() == 0 {
        assert(a + b =~= a);
    } else {
        lemma_mtl_run_append(st, a, b.drop_last());
        assert((a + b).drop_last() =~= a + b.drop_last());
        assert((a + b).last() == b.last());
    }
}

/// A line that changes nothing while no material is open: blank, a comment,
/// or a well-formed field directive.
pub open spec fn is_inert_line(toks: Seq<Seq<char>>) -> bool {
    toks.len() == 0 || (field_of(toks[0]) is None && is_comment(toks[0])) || (
    field_of(toks[0]) is Some && set_field(empty_material(seq![]), field_of(toks[0])->0, toks.drop_first()) is Ok)
}

proof fn lemma_inert_step(st: MtlProgress, toks: Seq<Seq<char>>)
    requires
        st.current is None,
        is_inert_line(toks),
    ensures
        mtl_step(st, toks) == Ok::<MtlProgress, MtlFault>(st),
{
    if toks.len() > 0 {
        if field_of(toks[0]) is Some {
            lemma_field_without_material(st, toks);
        } else {
            reveal_strlit("newmtl");
            assert(toks[0][0] != "newmtl"@[0]);
        }
    }
}

proof fn lemma_inert_run(ls: Seq<Seq<char>>)
    requires
        forall|k: int| 0 <= k < ls.len() ==> is_inert_line(#[trigger] tokens(ls[k])),
    ensures
        mtl_run(mtl_start(), ls) == Ok::<MtlProgress, MtlFault>(mtl_start()),
    decreases ls.len(),
{
    if ls.len() > 0 {
        let init = ls.drop_last();
        assert forall|k: int| 0 <= k < init.len() implies is_inert_line(#[trigger] tokens(init[k])) by {
            assert(init[k] == ls[k]);
        }
        lemma_inert_run(init);
        assert(is_inert_line(tokens(ls[ls.len() - 1])));
        lemma_inert_step(mtl_start(), tokens(ls.last()));
    }
}

/// Lines before the first `newmtl` that are blank, comments or well-formed
/// field directives leave no trace: reading them followed by any text gives
/// what reading that text alone gives, materials or error.
pub proof fn lemma_fields_before_newmtl_vanish(p: Seq<Seq<char>>, t: Seq<Seq<char>>)
    requires
        forall|k: int| 0 <= k < p.len() ==> is_inert_line(#[trigger] tokens(p[k])),
    ensures
        mtl_parse(p + t) == mtl_parse(t),
{
    let st0 = mtl_start();
    lemma_inert_run(p);
    lemma_mtl_run_append(st0, p, t);
    lemma_mtl_prefix_is_run(p + t, (p + t).len());
    lemma_mtl_prefix_is_run(t, t.len());
    assert((p + t).take((p + t).len() as int) =~= p + t);
    assert(t.take(t.len() as int) =~= t);
}

} // verus!
