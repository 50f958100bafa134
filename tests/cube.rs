use obj::number::Real;
use obj::obj::{IndexTuple, ObjData, SimplePolygon};

fn lines_of(text: &str) -> Vec<String> {
    text.lines().map(String::from).collect()
}

fn value(r: &Real) -> f32 {
    r.as_str().parse::<f32>().unwrap()
}

fn positions(obj: &ObjData) -> Vec<[f32; 3]> {
    obj.position.iter().map(|p| [value(&p[0]), value(&p[1]), value(&p[2])]).collect()
}

const SQUARE: &str = "
v 0 1 0
v 0 0 0
v 1 0 0
v 1 1 0
f 1 2 3 4
";

const SQUARE_VBO: [[f32; 3]; 4] = [[0., 1., 0.], [0., 0., 0.], [1., 0., 0.], [1., 1., 0.]];

#[test]
fn test_load_square() {
    let obj = ObjData::load(&lines_of(SQUARE)).unwrap();
    let v = positions(&obj);
    for (a, b) in v.iter().zip(SQUARE_VBO.iter()) {
        assert_eq!(a, b);
    }
}

#[test]
fn square_has_one_face_of_four_vertices() {
    let obj = ObjData::load(&lines_of("v 0 1 0\nv 0 0 0\nv 1 0 0\nv 1 1 0\nf 1 2 3 4")).unwrap();
    assert_eq!(positions(&obj), SQUARE_VBO.to_vec());
    assert_eq!(obj.objects.len(), 1);
    assert_eq!(obj.objects[0].groups.len(), 1);
    let polys = &obj.objects[0].groups[0].polys;
    assert_eq!(
        polys,
        &vec![SimplePolygon(vec![
            IndexTuple(0, None, None),
            IndexTuple(1, None, None),
            IndexTuple(2, None, None),
            IndexTuple(3, None, None),
        ])]
    );
}

const CUBE: &str = "
v 0 1 1
v 0 0 1
v 1 0 1
v 1 1 1
v 0 1 0
v 0 0 0
v 1 0 0
v 1 1 0
# 8 vertices

o cube
g front cube
f 1 2 3 4
g back cube
f 8 7 6 5
g right cube
f 4 3 7 8
g top cube
f 5 1 4 8
g left cube
f 5 6 2 1
g bottom cube
f 2 6 7 3
# 6 elements
";

const CUBE_VBO: [[f32; 3]; 8] = [
    [0., 1., 1.],
    [0., 0., 1.],
    [1., 0., 1.],
    [1., 1., 1.],
    [1., 1., 0.],
    [1., 0., 0.],
    [0., 0., 0.],
    [0., 1., 0.],
];

const CUBE_NAMES: [&str; 6] =
    ["front cube", "back cube", "right cube", "top cube", "left cube", "bottom cube"];

const CUBE_FILE_ORDER: [[f32; 3]; 8] = [
    [0., 1., 1.],
    [0., 0., 1.],
    [1., 0., 1.],
    [1., 1., 1.],
    [0., 1., 0.],
    [0., 0., 0.],
    [1., 0., 0.],
    [1., 1., 0.],
];

#[test]
fn test_load_cube() {
    let obj = ObjData::load(&lines_of(CUBE)).unwrap();
    assert_eq!(positions(&obj), CUBE_FILE_ORDER.to_vec());
    assert_eq!(obj.objects.len(), 1);
    assert_eq!(obj.objects[0].groups.len(), 6);
    assert_eq!(obj.objects[0].groups[1].polys[0].0[0], IndexTuple(7, None, None));
    for obj in obj.objects.iter() {
        assert_eq!(obj.name, "cube");
        for (g, &name) in obj.groups.iter().zip(CUBE_NAMES.iter()) {
            assert_eq!(name, g.name);
        }
    }
}

const CUBE_NEGATIVE: &str = "
v 0 1 1
v 0 0 1
v 1 0 1
v 1 1 1
f -4 -3 -2 -1

v 1 1 0
v 1 0 0
v 0 0 0
v 0 1 0
f -4 -3 -2 -1

v 1 1 1
v 1 0 1
v 1 0 0
v 1 1 0
f -4 -3 -2 -1

v 0 1 0
v 0 1 1
v 1 1 1
v 1 1 0
f -4 -3 -2 -1

v 0 1 0
v 0 0 0
v 0 0 1
v 0 1 1
f -4 -3 -2 -1

v 0 0 1
v 0 0 0
v 1 0 0
v 1 0 1
f -4 -3 -2 -1
";

#[test]
fn test_load_cube_negative() {
    let obj = ObjData::load(&lines_of(CUBE_NEGATIVE)).unwrap();
    let v = positions(&obj);
    for (a, b) in v.iter().zip(CUBE_VBO.iter()) {
        assert_eq!(a, b);
    }
}

#[test]
fn negative_references_match_positive_ones() {
    let neg = ObjData::load(&lines_of("v 0 1 0\nv 0 0 0\nv 1 0 0\nv 1 1 0\nf -4 -3 -2 -1")).unwrap();
    let pos = ObjData::load(&lines_of("v 0 1 0\nv 0 0 0\nv 1 0 0\nv 1 1 0\nf 1 2 3 4")).unwrap();
    assert_eq!(neg.objects[0].groups[0].polys, pos.objects[0].groups[0].polys);
    let later = ObjData::load(&lines_of("v 0 0 0\nv 1 0 0\nv 1 1 0\nf -3 -2 -1\nv 0 1 0\nf -1 -2 -3")).unwrap();
    assert_eq!(
        later.objects[0].groups[0].polys[1],
        SimplePolygon(vec![IndexTuple(3, None, None), IndexTuple(2, None, None), IndexTuple(1, None, None)])
    );
}
