use obj::mtl::{Mtl, MtlError, MtlMissingType, Parser};
use obj::number::Real;

fn lines_of(text: &str) -> Vec<String> {
    text.lines().map(String::from).collect()
}

fn value(r: &Real) -> f32 {
    r.as_str().parse::<f32>().unwrap()
}

#[test]
fn material_block_with_spaced_texture_path() {
    let mtl = Mtl::load(&lines_of("newmtl m\nKa 1 1 1\nmap_Kd a   file  name.png")).unwrap();
    assert_eq!(mtl.materials.len(), 1);
    let m = &mtl.materials[0];
    assert_eq!(m.name, "m");
    let ka = m.ka.as_ref().unwrap();
    assert_eq!([value(&ka[0]), value(&ka[1]), value(&ka[2])], [1.0, 1.0, 1.0]);
    assert_eq!(m.map_kd.as_deref(), Some("a file name.png"));
    assert!(m.kd.is_none() && m.ns.is_none() && m.illum.is_none() && m.map_ka.is_none());
}

#[test]
fn field_before_any_material_is_dropped() {
    let mtl = Mtl::load(&lines_of("Ka 1 1 1\nNs 10\n")).unwrap();
    assert!(mtl.materials.is_empty());
    let mtl = Mtl::load(&lines_of("Kd 0.5 0.5 0.5\nnewmtl a\n")).unwrap();
    assert_eq!(mtl.materials.len(), 1);
    assert!(mtl.materials[0].kd.is_none());
}

#[test]
fn field_before_any_material_is_still_checked() {
    match Mtl::load(&lines_of("Ka 1 x 1\nnewmtl a\n")) {
        Err(MtlError::InvalidValue(v)) => assert_eq!(v, "1 x 1"),
        _ => panic!("expected an invalid value"),
    }
}

#[test]
fn every_field_is_read() {
    let text = "# comment\n\nnewmtl full\nKa 0.1 0.2 0.3\nKd 1 0 0\nKs 0 1 0\nKe 0 0 1\nTf 1 1 1\n\
Km 0.5\nNs 96.078431\nNi 1.45\nd 0.75\nTr 0.25\nillum 2\nmap_Ka a.png\nmap_Kd d.png\nmap_Ks s.png\n\
map_Ke e.png\nmap_Ns ns.png\nmap_d alpha.png\nmap_Bump b1.png\nmap_refl r.png\nnewmtl second\nbump b2.png\nnewmtl third\nmap_bump b3.png\n";
    let mtl = Mtl::load(&lines_of(text)).unwrap();
    assert_eq!(mtl.materials.len(), 3);
    let m = &mtl.materials[0];
    assert_eq!(m.name, "full");
    let ka = m.ka.as_ref().unwrap();
    assert_eq!(ka[0].as_str(), "0.1");
    assert_eq!(ka[2].as_str(), "0.3");
    assert_eq!(m.tf.as_ref().unwrap()[1].as_str(), "1");
    assert_eq!(value(m.km.as_ref().unwrap()), 0.5);
    assert_eq!(value(m.ns.as_ref().unwrap()), 96.078431);
    assert_eq!(value(m.ni.as_ref().unwrap()), 1.45);
    assert_eq!(value(m.d.as_ref().unwrap()), 0.75);
    assert_eq!(value(m.tr.as_ref().unwrap()), 0.25);
    assert_eq!(m.illum, Some(2));
    assert_eq!(m.map_ka.as_deref(), Some("a.png"));
    assert_eq!(m.map_ks.as_deref(), Some("s.png"));
    assert_eq!(m.map_ke.as_deref(), Some("e.png"));
    assert_eq!(m.map_ns.as_deref(), Some("ns.png"));
    assert_eq!(m.map_d.as_deref(), Some("alpha.png"));
    assert_eq!(m.map_bump.as_deref(), Some("b1.png"));
    assert_eq!(m.map_refl.as_deref(), Some("r.png"));
    assert_eq!(mtl.materials[1].map_bump.as_deref(), Some("b2.png"));
    assert_eq!(mtl.materials[2].map_bump.as_deref(), Some("b3.png"));
}

#[test]
fn duplicate_names_are_kept() {
    let mtl = Mtl::load(&lines_of("newmtl a\nnewmtl a\n")).unwrap();
    assert_eq!(mtl.materials.len(), 2);
    assert_eq!(mtl.materials[1].name, "a");
}

#[test]
fn vector_needs_exactly_three_numbers() {
    for bad in ["Ka 1 1", "Ka 1 1 1 1"] {
        let text = format!("newmtl m\n{}", bad);
        match Mtl::load(&lines_of(&text)) {
            Err(MtlError::InvalidValue(_)) => {},
            _ => panic!("expected an invalid value for {}", bad),
        }
    }
    let p = Parser::new("Ka 1 2 3").unwrap();
    assert!(p.get_vec().is_ok());
    let p = Parser::new("Ka 1 2 z").unwrap();
    assert!(matches!(p.get_vec(), Err(MtlError::InvalidValue(v)) if v == "1 2 z"));
}

#[test]
fn error_kinds() {
    assert!(matches!(Mtl::load(&lines_of("newmtl")), Err(MtlError::MissingMaterialName)));
    assert!(matches!(Mtl::load(&lines_of("foo 1")), Err(MtlError::InvalidInstruction(i)) if i == "foo"));
    assert!(matches!(
        Mtl::load(&lines_of("newmtl a\nNs")),
        Err(MtlError::MissingValue(MtlMissingType::F32))
    ));
    assert!(matches!(
        Mtl::load(&lines_of("newmtl a\nillum")),
        Err(MtlError::MissingValue(MtlMissingType::I32))
    ));
    assert!(matches!(
        Mtl::load(&lines_of("newmtl a\nmap_Kd")),
        Err(MtlError::MissingValue(MtlMissingType::String))
    ));
    assert!(matches!(
        Mtl::load(&lines_of("newmtl a\nillum 2.5")),
        Err(MtlError::InvalidValue(v)) if v == "2.5"
    ));
    assert!(matches!(
        Mtl::load(&lines_of("newmtl a\nillum 3000000000")),
        Err(MtlError::InvalidValue(_))
    ));
    assert_eq!(MtlMissingType::I32.label(), "i32");
    assert_eq!(MtlMissingType::String.label(), "String");
}

#[test]
fn bad_scalar_reports_its_token() {
    assert!(matches!(Parser::new("illum 2.5 x").unwrap().get_i32(), Err(MtlError::InvalidValue(v)) if v == "2.5"));
    assert!(matches!(Parser::new("Ns q 1").unwrap().get_f32(), Err(MtlError::InvalidValue(v)) if v == "q"));
    assert!(matches!(Parser::new("illum 2 3").unwrap().get_i32(), Err(MtlError::InvalidValue(v)) if v == "2 3"));
    assert!(matches!(Parser::new("Ns 1 2").unwrap().get_f32(), Err(MtlError::InvalidValue(v)) if v == "1 2"));
}

#[test]
fn parser_reads_scalars() {
    assert_eq!(Parser::new("illum -7").unwrap().get_i32().ok(), Some(-7));
    assert_eq!(Parser::new("illum +7").unwrap().get_i32().ok(), Some(7));
    assert_eq!(Parser::new("Ns 1e3").unwrap().get_f32().unwrap().as_str(), "1e3");
    assert!(Parser::new("Ns 1e").unwrap().get_f32().is_err());
    assert!(Parser::new("Ns inf").unwrap().get_f32().is_ok());
    assert!(Parser::new("Ns .").unwrap().get_f32().is_err());
    assert_eq!(Parser::new("map_Kd  x \t y ").unwrap().into_string().ok(), Some("x y".to_string()));
    assert!(Parser::new("   ").is_none());
}

#[test]
fn float_literals() {
    for ok in ["0", "-1.5", "+.5", "1.", "1E-7", "NaN", "-Infinity", "2.5e+10"] {
        assert!(Real::parse(ok).is_some(), "{}", ok);
        assert_eq!(ok.parse::<f32>().is_ok(), true);
    }
    for bad in ["", ".", "1..2", "e5", "1e", "1x", "--1", "infinit", "0x10"] {
        assert!(Real::parse(bad).is_none(), "{}", bad);
        assert_eq!(bad.parse::<f32>().is_ok(), false);
    }
}

#[test]
fn error_messages() {
    assert_eq!(MtlError::InvalidInstruction("foo".to_string()).message(), "Unsupported mtl instruction: foo");
    assert_eq!(
        MtlError::InvalidValue("x".to_string()).message(),
        "Attempted to parse the value 'x' but failed."
    );
    assert_eq!(MtlError::MissingMaterialName.message(), "newmtl issued, but no name provided.");
    assert_eq!(
        MtlError::MissingValue(MtlMissingType::F32).message(),
        "Instruction is missing a value of type 'f32'"
    );
    let io = MtlError::Io(std::io::Error::new(std::io::ErrorKind::Other, "boom"));
    assert_eq!(io.message(), "I/O error loading a .mtl file: boom");
}

#[test]
fn leading_fields_leave_no_trace() {
    let tail = "newmtl a\nKd 1 0 0\n";
    let with = Mtl::load(&lines_of(&format!("# c\nKa 1 1 1\nmap_Kd x y\nillum 3\n{}", tail))).unwrap();
    let without = Mtl::load(&lines_of(tail)).unwrap();
    assert_eq!(with.materials.len(), without.materials.len());
    assert_eq!(with.materials[0].name, without.materials[0].name);
    assert!(with.materials[0].ka.is_none() && with.materials[0].map_kd.is_none() && with.materials[0].illum.is_none());
    assert_eq!(with.materials[0].kd.as_ref().unwrap()[0].as_str(), "1");
}
