use schnellwerke::ivec3::Ivec3;
use schnellwerke::layer::{compute_raw_data_indices, fill_indices};
use schnellwerke::svo::{pack_svo_layers, try_pack_svo_layers, Voxel, SVO};

fn v(x: i32, y: i32, z: i32) -> Ivec3 {
    Ivec3 { x, y, z }
}

const A: [u8; 4] = [1, 2, 3, 4];
const B: [u8; 4] = [9, 8, 7, 6];

fn one_voxel_tree() -> SVO {
    let voxels = vec![Voxel { pos: v(0, 0, 0), color: A }];
    SVO::build_tree_recursive(voxels, v(0, 0, 0), v(2, 2, 2), 1, 10)
}

fn two_voxel_tree() -> SVO {
    let voxels = vec![Voxel { pos: v(0, 0, 0), color: A }, Voxel { pos: v(3, 3, 3), color: B }];
    SVO::build_tree_recursive(voxels, v(0, 0, 0), v(4, 4, 4), 2, 10)
}

#[test]
fn estimate_branch_size_counts_five_bytes_per_node() {
    assert_eq!(one_voxel_tree().estimate_branch_size(), 45);
    assert_eq!(two_voxel_tree().estimate_branch_size(), 125);
}

#[test]
fn leaf_at_level_zero_takes_first_voxel_color() {
    let voxels = vec![Voxel { pos: v(5, 5, 5), color: B }, Voxel { pos: v(1, 1, 1), color: A }];
    let t = SVO::build_tree_recursive(voxels, v(0, 0, 0), v(2, 2, 2), 0, 3);
    let mut out = Vec::new();
    t.pack_recursive(&mut out);
    assert_eq!(out, vec![0, 1, 2, 3, 4]);
    let mut layer = Vec::new();
    t.pack_recursive_layer(&mut layer, 0);
    assert_eq!(layer, vec![3, 1, 2, 3, 4]);
}

#[test]
fn empty_box_is_empty_leaf() {
    let voxels = vec![Voxel { pos: v(9, 9, 9), color: A }];
    let t = SVO::build_tree_recursive(voxels, v(0, 0, 0), v(2, 2, 2), 3, 0);
    assert_eq!(t.estimate_branch_size(), 5);
    let mut out = Vec::new();
    t.pack_recursive(&mut out);
    assert_eq!(out, vec![0, 0, 0, 0, 0]);
    let mut layer = Vec::new();
    t.pack_recursive_layer(&mut layer, 0);
    assert_eq!(layer, Vec::<u8>::new());
}

#[test]
fn pack_recursive_depth_first() {
    let t = one_voxel_tree();
    let mut out = vec![42];
    t.pack_recursive(&mut out);
    let mut expected = vec![42, 100, 45, 0, 0, 0, 0, 1, 2, 3, 4];
    expected.extend(std::iter::repeat(0u8).take(35));
    assert_eq!(out, expected);
    assert_eq!(out.len() - 1, t.estimate_branch_size());
}

#[test]
fn pack_recursive_layer_records() {
    let t = one_voxel_tree();
    let mut l0 = Vec::new();
    t.pack_recursive_layer(&mut l0, 0);
    assert_eq!(l0, vec![110, 1, 0, 0, 0, 0]);
    let mut l1 = Vec::new();
    t.pack_recursive_layer(&mut l1, 1);
    assert_eq!(l1, vec![0, 1, 2, 3, 4]);
    let mut l2 = Vec::new();
    t.pack_recursive_layer(&mut l2, 2);
    assert_eq!(l2, Vec::<u8>::new());
}

fn two_voxel_layer1() -> Vec<u8> {
    let mut l1 = vec![100, 1, 0, 0, 0, 0, 107, 8];
    l1.extend(std::iter::repeat(0u8).take(32));
    l1
}

fn two_voxel_layer2() -> Vec<u8> {
    let mut l2 = vec![0, 1, 2, 3, 4];
    for o in 0..8u8 {
        l2.push(o);
        l2.extend_from_slice(&B);
    }
    l2
}

#[test]
fn two_voxel_layers() {
    let t = two_voxel_tree();
    let mut l0 = Vec::new();
    t.pack_recursive_layer(&mut l0, 0);
    assert_eq!(l0, vec![110, 2, 0, 0, 0, 0, 0, 0, 0, 0]);
    let mut l1 = Vec::new();
    t.pack_recursive_layer(&mut l1, 1);
    assert_eq!(l1, two_voxel_layer1());
    let mut l2 = Vec::new();
    t.pack_recursive_layer(&mut l2, 2);
    assert_eq!(l2, two_voxel_layer2());
}

#[test]
fn raw_data_indices_of_layers() {
    let mut l2 = two_voxel_layer2();
    assert_eq!(compute_raw_data_indices(&mut l2), vec![0, 5, 10, 15, 20, 25, 30, 35, 40]);
    assert_eq!(l2, two_voxel_layer2());
    let mut l1 = two_voxel_layer1();
    assert_eq!(compute_raw_data_indices(&mut l1), vec![0, 6]);
    let mut empty: Vec<u8> = Vec::new();
    assert_eq!(compute_raw_data_indices(&mut empty), Vec::<u32>::new());
}

#[test]
fn fill_indices_writes_little_endian_slots() {
    let mut d = vec![110, 2, 0, 0, 0, 0, 0, 0, 0, 0, 3, 9, 9, 9, 9];
    fill_indices(&mut d, vec![5, 0x0102_0304]);
    assert_eq!(d, vec![110, 2, 5, 0, 0, 0, 4, 3, 2, 1, 3, 9, 9, 9, 9]);
}

#[test]
fn fill_indices_keeps_record_offsets() {
    let mut l1 = two_voxel_layer1();
    fill_indices(&mut l1, vec![0, 5, 10, 15, 20, 25, 30, 35, 40]);
    let mut expected = vec![100, 1, 0, 0, 0, 0, 107, 8];
    for k in 1..9u8 {
        expected.extend_from_slice(&[5 * k, 0, 0, 0]);
    }
    assert_eq!(l1, expected);
    assert_eq!(compute_raw_data_indices(&mut l1), vec![0, 6]);
}

#[test]
fn pack_svo_layers_links_slots_to_records() {
    let t = two_voxel_tree();
    let data = pack_svo_layers(&t, 2);
    let mut expected = vec![44, 0, 0, 0, 100, 1, 0, 0, 0, 0, 107, 8];
    for k in 1..9u8 {
        expected.extend_from_slice(&[5 * k, 0, 0, 0]);
    }
    expected.extend(two_voxel_layer2());
    assert_eq!(data, expected);
}

#[test]
fn pack_svo_layers_single_level() {
    let t = one_voxel_tree();
    assert_eq!(pack_svo_layers(&t, 1), vec![0, 1, 2, 3, 4]);
}

#[test]
fn try_pack_matches_pack() {
    let t = two_voxel_tree();
    assert_eq!(try_pack_svo_layers(&t, 2), Some(pack_svo_layers(&t, 2)));
    let t = one_voxel_tree();
    assert_eq!(try_pack_svo_layers(&t, 1), Some(vec![0, 1, 2, 3, 4]));
    assert_eq!(try_pack_svo_layers(&t, u32::MAX), None);
}

#[test]
fn try_pack_branch_root_with_high_octant() {
    let voxels = vec![Voxel { pos: v(0, 0, 0), color: A }, Voxel { pos: v(3, 3, 3), color: B }];
    let t = SVO::build_tree_recursive(voxels, v(0, 0, 0), v(4, 4, 4), 2, 155);
    assert_eq!(try_pack_svo_layers(&t, 2), Some(pack_svo_layers(&two_voxel_tree(), 2)));
    let mut layer0 = Vec::new();
    t.pack_recursive_layer(&mut layer0, 0);
    assert_eq!(layer0[0], 255);
}

#[test]
fn try_pack_refuses_leaf_root_read_as_branch() {
    let voxels = vec![Voxel { pos: v(1, 1, 1), color: A }];
    let t = SVO::build_tree_recursive(voxels, v(0, 0, 0), v(2, 2, 2), 0, 120);
    assert_eq!(try_pack_svo_layers(&t, 0), None);
}

#[test]
fn child_count_of_built_trees() {
    assert_eq!(two_voxel_tree().child_count(), 8);
    let voxels = vec![Voxel { pos: v(1, 1, 1), color: A }];
    assert_eq!(SVO::build_tree_recursive(voxels.clone(), v(0, 0, 0), v(2, 2, 2), 0, 3).child_count(), 0);
    assert_eq!(SVO::build_tree_recursive(voxels, v(5, 5, 5), v(6, 6, 6), 4, 3).child_count(), 0);
}

#[test]
fn build_over_box_reaching_two_to_the_thirty() {
    let top = 1 << 30;
    let voxels = vec![Voxel { pos: v(top - 1, top, 0), color: A }];
    let t = SVO::build_tree_recursive(voxels, v(0, 0, 0), v(top, top, top), 4, 10);
    assert_eq!(t.child_count(), 8);
    assert_eq!(t.estimate_branch_size(), 5 * (1 + 8 * 4));
}
