use obj::obj::{IndexTuple, LineTuple, ObjData, ObjError};

fn lines_of(text: &str) -> Vec<String> {
    text.lines().map(String::from).collect()
}

fn same(a: &ObjData, b: &ObjData) -> bool {
    a.position.len() == b.position.len()
        && a.position.iter().zip(b.position.iter()).all(|(x, y)| {
            x[0].as_str() == y[0].as_str() && x[1].as_str() == y[1].as_str() && x[2].as_str() == y[2].as_str()
        })
        && a.objects.len() == b.objects.len()
        && a.objects.iter().zip(b.objects.iter()).all(|(o, p)| {
            o.name == p.name
                && o.groups.len() == p.groups.len()
                && o.groups.iter().zip(p.groups.iter()).all(|(g, h)| {
                    g.name == h.name && g.polys == h.polys && g.lines == h.lines
                })
        })
}

#[test]
fn load_write_load_gives_the_same_model() {
    let text = "v 0 1 0\nv 0 0 0\nv 1.5 0 -2e3\nv 1 1 0\nf 1 2 3\nf -3 -2 -1 4/2\n\
o  first   object\ng   a  group\nl 1 2 3\nf 1//2 2/3/4 3/1\ng empty\no second\nl 4/1 3 -1\n";
    let first = ObjData::load(&lines_of(text)).unwrap();
    let written = first.write_to_string();
    let second = ObjData::load(&lines_of(&written)).unwrap();
    assert!(same(&first, &second));
    assert_eq!(second.write_to_string(), written);
    assert_eq!(first.objects.len(), 3);
    assert_eq!(first.objects[0].name, "default");
    assert_eq!(first.objects[1].name, "first object");
    assert_eq!(first.objects[1].groups.len(), 1);
    assert_eq!(first.objects[1].groups[0].name, "a group");
}

#[test]
fn writer_renders_every_reference_form() {
    assert_eq!(IndexTuple(0, None, None).to_text(), "1");
    assert_eq!(IndexTuple(0, Some(1), None).to_text(), "1/2");
    assert_eq!(IndexTuple(2, None, Some(0)).to_text(), "3//1");
    assert_eq!(IndexTuple(9, Some(10), Some(99)).to_text(), "10/11/100");
    assert_eq!(LineTuple(41, Some(6)).to_text(), "42/7");
}

#[test]
fn writer_output_for_a_square() {
    let obj = ObjData::load(&lines_of("v 0 1 0\nv 0 0 0\nv 1 0 0\nv 1 1 0\nf 1 2 3 4")).unwrap();
    assert_eq!(
        obj.write_to_string(),
        "# Generated by the obj Rust library (https://crates.io/crates/obj).\nv 0 1 0\nv 0 0 0\nv 1 0 0\nv 1 1 0\no default\ng default\nf 1 2 3 4\n"
    );
}

#[test]
fn attributes_and_references() {
    let text = "v 0 0 0\nv 1 0 0\nv 1 1 0\nvt 0 0\nvt 1 0 0.5\nvn 0 0 1\nusemtl red\nmtllib a b.mtl\nf 1/1/1 2/2/1 3//1\n";
    let obj = ObjData::load(&lines_of(text)).unwrap();
    assert_eq!(obj.texture.len(), 2);
    assert_eq!(obj.texture[1].len(), 3);
    assert_eq!(obj.normal.len(), 1);
    assert_eq!(obj.material_libs, vec!["a b.mtl".to_string()]);
    let g = &obj.objects[0].groups[0];
    assert_eq!(g.material.as_deref(), Some("red"));
    assert_eq!(
        g.polys[0].0,
        vec![IndexTuple(0, Some(0), Some(0)), IndexTuple(1, Some(1), Some(0)), IndexTuple(2, None, Some(0))]
    );
}

#[test]
fn geometry_errors() {
    let check = |text: &str| ObjData::load(&lines_of(text));
    assert!(matches!(check("v 0 0"), Err(ObjError::InvalidValue { line_number: 1, .. })));
    assert!(matches!(check("v 0 0 0 1"), Err(ObjError::InvalidValue { line_number: 1, .. })));
    assert!(matches!(check("vt 0"), Err(ObjError::InvalidValue { .. })));
    assert!(matches!(check("v 0 0 0\n\nf 1 0 1"), Err(ObjError::InvalidValue { line_number: 3, value }) if value == "0"));
    assert!(matches!(check("v 0 0 0\nf 1 -2 1"), Err(ObjError::InvalidValue { line_number: 2, value }) if value == "-2"));
    assert!(matches!(check("v 0 0 0\nf 1 1"), Err(ObjError::MissingValue { line_number: 2 })));
    assert!(matches!(check("v 0 0 0\nl 1"), Err(ObjError::MissingValue { line_number: 2 })));
    assert!(matches!(check("usemtl"), Err(ObjError::MissingValue { line_number: 1 })));
    assert!(matches!(check("# fine\nxyz 1"), Err(ObjError::InvalidInstruction { line_number: 2, instruction }) if instruction == "xyz"));
    assert!(matches!(check("v 0 0 0\nf 1/x 1 1"), Err(ObjError::InvalidValue { .. })));
    assert!(matches!(check("v 0 0 0\nf 1/1/1/1 1 1"), Err(ObjError::InvalidValue { .. })));
}

#[test]
fn empty_input_has_no_objects() {
    let obj = ObjData::load(&Vec::new()).unwrap();
    assert!(obj.objects.is_empty() && obj.position.is_empty());
    let obj = ObjData::load(&lines_of("g lonely\no alone\n")).unwrap();
    assert!(obj.objects.is_empty());
}
