use schnellwerke::gltf::Gbfv;
use schnellwerke::mesh::{assemble_indexed_vertices, assemble_obj_objects, attribute_use, pick_attribute_slots, Aus};

#[test]
fn attribute_use_names() {
    assert_eq!(attribute_use(b"POSITION"), Aus::POSITION);
    assert_eq!(attribute_use(b"NORMAL"), Aus::NORMAL);
    assert_eq!(attribute_use(b"TEXCOORD_0"), Aus::UV);
    assert_eq!(attribute_use(b"TEXCOORD_1"), Aus::OTHER);
    assert_eq!(attribute_use(b"position"), Aus::OTHER);
    assert_eq!(attribute_use(b""), Aus::OTHER);
}

#[test]
fn pick_attribute_slots_last_of_each() {
    let uses = vec![Aus::POSITION, Aus::NORMAL, Aus::UV, Aus::INDICES];
    assert_eq!(pick_attribute_slots(&uses), (0, 1, 2, 3));
    let uses = vec![Aus::OTHER, Aus::UV, Aus::POSITION, Aus::POSITION, Aus::INDICES];
    assert_eq!(pick_attribute_slots(&uses), (3, 0, 1, 4));
    assert_eq!(pick_attribute_slots(&vec![]), (0, 0, 0, 0));
}

#[test]
fn assemble_indexed_vertices_layout() {
    let pos: Vec<[f32; 3]> = vec![[0.0, 1.0, 2.0], [3.0, 4.0, 5.0]];
    let uv: Vec<[f32; 2]> = vec![[6.0, 7.0], [8.0, 9.0]];
    let nrm: Vec<[f32; 3]> = vec![[10.0, 11.0, 12.0], [13.0, 14.0, 15.0]];
    let idx: Vec<u32> = vec![1, 0, 1];
    let out = assemble_indexed_vertices(&pos, &uv, &nrm, &idx);
    assert_eq!(
        out,
        vec![
            3.0, 4.0, 5.0, 0.0, 1.0, 2.0, 3.0, 4.0, 5.0, 8.0, 9.0, 6.0, 7.0, 8.0, 9.0, 13.0, 14.0,
            15.0, 10.0, 11.0, 12.0, 13.0, 14.0, 15.0
        ]
    );
    assert!(assemble_indexed_vertices(&pos, &uv, &nrm, &vec![]).is_empty());
}

#[test]
fn assemble_obj_objects_splits_by_object() {
    let vert: Vec<[i32; 3]> = vec![[1, 2, 3], [4, 5, 6], [7, 8, 9]];
    let uv: Vec<[i32; 2]> = vec![[10, 11], [12, 13]];
    let norm: Vec<[i32; 3]> = vec![[20, 21, 22]];
    let ivert: Vec<u32> = vec![1, 2, 3, 3];
    let iuv: Vec<u32> = vec![1, 2, 2, 1];
    let inorm: Vec<u32> = vec![1, 1, 1, 1];
    let starts: Vec<[usize; 3]> = vec![[0, 0, 0], [3, 3, 3]];
    let objs = assemble_obj_objects(&vert, &uv, &norm, &ivert, &iuv, &inorm, &starts);
    assert_eq!(objs.len(), 2);
    assert_eq!(
        objs[0],
        vec![1, 2, 3, 4, 5, 6, 7, 8, 9, 10, 11, 12, 13, 12, 13, 20, 21, 22, 20, 21, 22, 20, 21, 22]
    );
    assert_eq!(objs[1], vec![7, 8, 9, 10, 11, 20, 21, 22]);
}

#[test]
fn assemble_obj_objects_without_objects() {
    let vert: Vec<[i32; 3]> = vec![[1, 2, 3]];
    let objs = assemble_obj_objects(&vert, &vec![], &vec![], &vec![1], &vec![], &vec![], &vec![]);
    assert!(objs.is_empty());
}

#[test]
fn view_bytes_slices_buffer() {
    let view = Gbfv { buffer: 0, blenght: 3, boffset: 2, target: 0 };
    let buffer: Vec<u8> = vec![0, 1, 2, 3, 4, 5, 6];
    assert_eq!(view.view_bytes(&buffer), vec![2, 3, 4]);
    let empty = Gbfv { buffer: 0, blenght: 0, boffset: 7, target: 0 };
    assert!(empty.view_bytes(&buffer).is_empty());
}
