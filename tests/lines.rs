use obj::obj::{Group, Line, LineTuple, ObjData, ObjError, Object};
use obj::number::Real;

fn lines_of(text: &str) -> Vec<String> {
    text.lines().map(String::from).collect()
}

fn value(r: &Real) -> f32 {
    r.as_str().parse::<f32>().unwrap()
}

fn lit(s: &str) -> Real {
    Real::parse(s).unwrap()
}

#[test]
fn line_tuple_display() {
    assert_eq!(LineTuple(0, None).to_text(), "1");
    assert_eq!(LineTuple(0, Some(0)).to_text(), "1/1");
}

#[test]
fn test_load_line() {
    let line_square = "
    v 0 0 0
    v 0 1 0
    v 1 1 0
    v 1 0 0
    l 1 2 3 4 1
    ";

    let line_square_vbo = [[0.0, 0.0, 0.0], [0.0, 1.0, 0.0], [1.0, 1.0, 0.0], [1.0, 0.0, 0.0]];

    let obj = ObjData::load(&lines_of(line_square)).unwrap();

    for (a, b) in obj.position.iter().zip(line_square_vbo.iter()) {
        let a = [value(&a[0]), value(&a[1]), value(&a[2])];
        assert_eq!(&a, b);
    }

    let object = obj.objects.first().unwrap();
    let group = object.groups.first().unwrap();

    let expected_lines = vec![Line(vec![
        LineTuple(0, None),
        LineTuple(1, None),
        LineTuple(2, None),
        LineTuple(3, None),
        LineTuple(0, None),
    ])];

    assert_eq!(group.lines, expected_lines)
}

#[test]
fn line_with_normal_reports_its_line() {
    let text = "v 0 0 0\nv 1 0 0\nvt 0 0\nvn 0 0 0\nl 1/1/1 2/1/1\n";
    match ObjData::load(&lines_of(text)) {
        Err(ObjError::LineHasNormalIndex { line_number }) => assert_eq!(line_number, 5),
        _ => panic!("expected a normal-index error"),
    }
}

#[test]
fn test_export_line() {
    let mut obj_data: ObjData = ObjData::new();
    obj_data.position = vec![
        [lit("0"), lit("0"), lit("0")],
        [lit("0"), lit("1"), lit("0")],
        [lit("1"), lit("1"), lit("0")],
        [lit("1"), lit("0"), lit("0")],
    ];

    let name = "line test".to_string();
    let mut object = Object::new(name.to_owned());
    let mut group = Group::new(name.to_owned());

    group.lines = vec![Line(vec![
        LineTuple(0, None),
        LineTuple(1, None),
        LineTuple(2, None),
        LineTuple(3, None),
        LineTuple(0, None),
    ])];

    object.groups.push(group);
    obj_data.objects.push(object);

    let output = obj_data.write_to_string();

    let expected_output = "# Generated by the obj Rust library (https://crates.io/crates/obj).\nv 0 0 0\nv 0 1 0\nv 1 1 0\nv 1 0 0\no line test\ng line test\nl 1 2 3 4 1\n".to_string();
    assert_eq!(output, expected_output);
}

#[test]
fn line_normal_part_is_reported_before_resolving() {
    let text = "v 0 0 0\nv 1 0 0\nl 1/1/1 2/1/1\n";
    match ObjData::load(&lines_of(text)) {
        Err(ObjError::LineHasNormalIndex { line_number }) => assert_eq!(line_number, 3),
        _ => panic!("expected a normal-index error"),
    }
}
