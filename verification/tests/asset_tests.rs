use schnellwerke::grid::VoxelGrid;
use schnellwerke::imageasset::ImageAsset;
use schnellwerke::render::{CullMode, MeshUsage};

#[test]
fn grid_set_dense_writes_four_bytes() {
    let mut g = VoxelGrid::new(vec![0; 32], [2, 2, 2]);
    g.set(1, 1, 1, [1, 2, 3, 4], false);
    let mut expected = vec![0u8; 32];
    expected[28..32].copy_from_slice(&[1, 2, 3, 4]);
    assert_eq!(g.data, expected);
    assert!(g.voxels.is_empty());
}

#[test]
fn grid_set_index_order() {
    let mut g = VoxelGrid::new(vec![0; 4 * 24], [2, 3, 4]);
    g.set(1, 2, 3, [9, 9, 9, 9], false);
    let idx = (1 + 2 * 2 + 3 * 3 * 2) * 4;
    assert_eq!(&g.data[idx..idx + 4], &[9, 9, 9, 9]);
    assert_eq!(g.data.iter().filter(|b| **b == 9).count(), 4);
}

#[test]
fn grid_set_outside_changes_nothing() {
    let mut g = VoxelGrid::new(vec![0; 32], [2, 2, 2]);
    g.set(2, 0, 0, [1, 1, 1, 1], false);
    g.set(0, 5, 0, [1, 1, 1, 1], true);
    assert_eq!(g.data, vec![0; 32]);
    assert!(g.voxels.is_empty());
}

#[test]
fn grid_set_voxel_list() {
    let mut g = VoxelGrid::new(vec![], [4, 4, 4]);
    g.set(3, 0, 2, [5, 6, 7, 8], true);
    assert_eq!(g.voxels.len(), 1);
    assert_eq!((g.voxels[0].pos.x, g.voxels[0].pos.y, g.voxels[0].pos.z), (3, 0, 2));
    assert_eq!(g.voxels[0].color, [5, 6, 7, 8]);
    assert!(g.data.is_empty());
}

#[test]
fn tga_size_and_pixels() {
    let mut tga = vec![0u8; 18];
    tga[13] = 1;
    tga[15] = 1;
    for p in 0..(256 * 256) {
        tga.extend_from_slice(&[(p % 251) as u8, 200, 7]);
    }
    let img = ImageAsset::parse_tga(&tga);
    assert_eq!(img.size, [256, 256]);
    assert_eq!(img.data.len(), 4 * 256 * 256);
    assert_eq!(&img.data[0..8], &[0, -56, 7, 127, 1, -56, 7, 127]);
}

#[test]
fn tga_empty_image() {
    let tga = vec![0u8; 18];
    let img = ImageAsset::parse_tga(&tga);
    assert_eq!(img.size, [0, 0]);
    assert!(img.data.is_empty());
}

fn tiff_two_pixels() -> Vec<u8> {
    let mut t = vec![73, 73, 42, 0, 14, 0, 0, 0];
    t.extend_from_slice(&[10, 20, 30, 200, 50, 60]);
    t.extend_from_slice(&[1, 0]);
    t.extend_from_slice(&[0, 1, 3, 0, 1, 0, 0, 0, 2, 0, 0, 0]);
    t
}

#[test]
fn tiff_size_and_pixels() {
    let img = ImageAsset::parse_tiff(&tiff_two_pixels());
    assert_eq!(img.size, [2, 1]);
    assert_eq!(img.data, vec![10, 20, 30, 127, -56, 50, 60, 127]);
}

#[test]
fn tiff_without_width_tag() {
    let mut t = tiff_two_pixels();
    t[16] = 1;
    let img = ImageAsset::parse_tiff(&t);
    assert_eq!(img.size, [0, 0]);
    assert_eq!(img.data.len(), 8);
}

#[test]
fn render_codes() {
    assert_eq!(CullMode::CullModeNone.code(), 0);
    assert_eq!(CullMode::CullModeFrontBit.code(), 1);
    assert_eq!(CullMode::CullModeBackBit.code(), 2);
    assert_eq!(CullMode::CullModeFrontAndBack.code(), 3);
    assert_eq!(MeshUsage::LightingPass.code(), 0);
    assert_eq!(MeshUsage::DefferedPass.code(), 1);
    assert_eq!(MeshUsage::ShadowPass.code(), 2);
    assert_eq!(MeshUsage::ShadowAndDefferedPass.code(), 3);
    assert!(MeshUsage::DefferedPass == MeshUsage::DefferedPass);
    assert!(MeshUsage::DefferedPass != MeshUsage::ShadowPass);
}
