use schnellwerke::render::{split_vertex_attributes, sync_toggle};

#[test]
fn split_vertex_attributes_two_vertices() {
    let vertices: Vec<f32> = (0..16).map(|i| i as f32).collect();
    let (v, u, n) = split_vertex_attributes(&vertices);
    assert_eq!(v, vec![0.0, 1.0, 2.0, 3.0, 4.0, 5.0]);
    assert_eq!(u, vec![6.0, 7.0, 8.0, 9.0]);
    assert_eq!(n, vec![10.0, 11.0, 12.0, 13.0, 14.0, 15.0]);
}

#[test]
fn split_vertex_attributes_ignores_partial_vertex() {
    let vertices: Vec<u32> = (0..11).collect();
    let (v, u, n) = split_vertex_attributes(&vertices);
    assert_eq!(v, vec![0, 1, 2]);
    assert_eq!(u, vec![3, 4]);
    assert_eq!(n, vec![5, 6, 7]);
}

#[test]
fn split_vertex_attributes_short_buffer() {
    let vertices: Vec<u32> = vec![1, 2, 3];
    let (v, u, n) = split_vertex_attributes(&vertices);
    assert!(v.is_empty() && u.is_empty() && n.is_empty());
}

#[test]
fn sync_toggle_cases() {
    assert_eq!(sync_toggle(true, false), Some(true));
    assert_eq!(sync_toggle(false, true), Some(false));
    assert_eq!(sync_toggle(true, true), None);
    assert_eq!(sync_toggle(false, false), None);
}
