use schnellwerke::mesh::{assemble_obj_objects, indices_fit, objects_fit};
use schnellwerke::obj::{parse_i32, parse_u32, read_obj_lines, split_fields};

fn lines(text: &str) -> Vec<Vec<u8>> {
    text.lines().map(|l| l.as_bytes().to_vec()).collect()
}

fn b(s: &str) -> Vec<u8> {
    s.as_bytes().to_vec()
}

#[test]
fn parse_u32_cases() {
    assert_eq!(parse_u32(&b("123")), Some(123));
    assert_eq!(parse_u32(&b("+7")), Some(7));
    assert_eq!(parse_u32(&b("007")), Some(7));
    assert_eq!(parse_u32(&b("4294967295")), Some(u32::MAX));
    assert_eq!(parse_u32(&b("4294967296")), None);
    assert_eq!(parse_u32(&b("99999999999")), None);
    assert_eq!(parse_u32(&b("+")), None);
    assert_eq!(parse_u32(&b("")), None);
    assert_eq!(parse_u32(&b("-1")), None);
    assert_eq!(parse_u32(&b("12a")), None);
    assert_eq!(parse_u32(&b("++1")), None);
    for t in ["0", "1", "+12", "4294967295", "4294967296", "", "+", "-0", " 1", "1 "] {
        assert_eq!(parse_u32(&b(t)), t.parse::<u32>().ok(), "{:?}", t);
    }
}

#[test]
fn split_fields_keeps_empty_pieces() {
    assert_eq!(split_fields(&b("a b  c"), b' '), vec![b("a"), b("b"), b(""), b("c")]);
    assert_eq!(split_fields(&b(""), b' '), vec![b("")]);
    assert_eq!(split_fields(&b("1//3"), b'/'), vec![b("1"), b(""), b("3")]);
    assert_eq!(split_fields(&b("/"), b'/'), vec![b(""), b("")]);
}

const CUBE: &str = "# a triangle\nmtllib cube.mtl\no Cube\nv 1.0 2.0 3.0\nv 4.0 5.0 6.0\nv 7.0 8.0 9.0\nvt 0.5 0.25\nvn 0.0 1.0 0.0\nusemtl Material\ns off\nf 1/1/1 2/1/1 3/1/1\n";

#[test]
fn read_obj_lines_triangle() {
    let d = read_obj_lines(&lines(CUBE)).expect("readable");
    assert_eq!(
        d.positions,
        vec![b("1.0"), b("2.0"), b("3.0"), b("4.0"), b("5.0"), b("6.0"), b("7.0"), b("8.0"), b("9.0")]
    );
    assert_eq!(d.uvs, vec![b("0.5"), b("0.25")]);
    assert_eq!(d.normals, vec![b("0.0"), b("1.0"), b("0.0")]);
    assert_eq!(d.ivert, vec![1, 2, 3]);
    assert_eq!(d.iuv, vec![1, 1, 1]);
    assert_eq!(d.inorm, vec![1, 1, 1]);
    assert_eq!(d.object_starts, vec![[0, 0, 0]]);
    assert_eq!(d.mtllibs, vec![b("cube.mtl")]);
}

#[test]
fn read_obj_lines_refusals() {
    assert!(read_obj_lines(&lines("v 1 2 3\n\nv 1 2 3\n")).is_none());
    assert!(read_obj_lines(&lines("f 1/1 2/2 3/3\n")).is_none());
    assert!(read_obj_lines(&lines("f 1/1/1 2/1/1\n")).is_none());
    assert!(read_obj_lines(&lines("f 1/1/1 2/x/1 3/1/1\n")).is_none());
    assert!(read_obj_lines(&lines("v 1 2\n")).is_none());
    assert!(read_obj_lines(&lines("vt 1\n")).is_none());
    assert!(read_obj_lines(&lines("o\n")).is_none());
    assert!(read_obj_lines(&lines("mtllib\n")).is_none());
    // A lone letter other than o, v or f is passed over.
    assert!(read_obj_lines(&lines("g\nx\n")).is_some());
}

#[test]
fn obj_triangle_vertex_buffer() {
    let d = read_obj_lines(&lines(CUBE)).expect("readable");
    let num = |t: &Vec<u8>| std::str::from_utf8(t).unwrap().parse::<f32>().unwrap();
    let vert: Vec<[f32; 3]> =
        d.positions.chunks(3).map(|c| [num(&c[0]), num(&c[1]), num(&c[2])]).collect();
    let uv: Vec<[f32; 2]> = d.uvs.chunks(2).map(|c| [num(&c[0]), num(&c[1])]).collect();
    let norm: Vec<[f32; 3]> =
        d.normals.chunks(3).map(|c| [num(&c[0]), num(&c[1]), num(&c[2])]).collect();
    assert!(objects_fit(&vert, &uv, &norm, &d.ivert, &d.iuv, &d.inorm, &d.object_starts));
    let objs = assemble_obj_objects(&vert, &uv, &norm, &d.ivert, &d.iuv, &d.inorm, &d.object_starts);
    assert_eq!(objs.len(), 1);
    assert_eq!(
        objs[0],
        vec![
            1.0, 2.0, 3.0, 4.0, 5.0, 6.0, 7.0, 8.0, 9.0, 0.5, 0.25, 0.5, 0.25, 0.5, 0.25, 0.0, 1.0,
            0.0, 0.0, 1.0, 0.0, 0.0, 1.0, 0.0
        ]
    );
}

#[test]
fn objects_fit_refuses_bad_indices() {
    let vert: Vec<[i32; 3]> = vec![[1, 2, 3]];
    let uv: Vec<[i32; 2]> = vec![[4, 5]];
    let norm: Vec<[i32; 3]> = vec![[6, 7, 8]];
    let starts: Vec<[usize; 3]> = vec![[0, 0, 0]];
    assert!(objects_fit(&vert, &uv, &norm, &vec![1], &vec![1], &vec![1], &starts));
    assert!(!objects_fit(&vert, &uv, &norm, &vec![0], &vec![1], &vec![1], &starts));
    assert!(!objects_fit(&vert, &uv, &norm, &vec![1], &vec![2], &vec![1], &starts));
    assert!(!objects_fit(&vert, &uv, &norm, &vec![1], &vec![1], &vec![2], &starts));
    assert!(objects_fit(&vert, &uv, &norm, &vec![0], &vec![0], &vec![0], &vec![]));
}

#[test]
fn indices_fit_cases() {
    let pos: Vec<[u8; 3]> = vec![[0; 3], [0; 3]];
    let uv: Vec<[u8; 2]> = vec![[0; 2], [0; 2], [0; 2]];
    let nrm: Vec<[u8; 3]> = vec![[0; 3], [0; 3]];
    assert!(indices_fit(&pos, &uv, &nrm, &vec![0, 1, 1]));
    assert!(!indices_fit(&pos, &uv, &nrm, &vec![0, 2]));
    assert!(indices_fit(&pos, &uv, &nrm, &vec![]));
}

#[test]
fn parse_i32_matches_std() {
    for t in [
        "0", "-0", "+5", "-5", "2147483647", "2147483648", "-2147483648", "-2147483649", "", "-", "+",
        "--1", "1-", " 1", "12x", "0007", "99999999999",
    ] {
        assert_eq!(parse_i32(&b(t)), t.parse::<i32>().ok(), "{:?}", t);
    }
}
