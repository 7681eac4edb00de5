use schnellwerke::glb::{decode_indices, pick_chunks, split_glb_chunks, ChunkType, GLtypes};

fn glb_file() -> Vec<u8> {
    let mut f = vec![0x67, 0x6c, 0x54, 0x46, 2, 0, 0, 0, 0, 0, 0, 0];
    f.extend_from_slice(&[3, 0, 0, 0, b'J', b'S', b'O', b'N', b'{', b'}', b' ']);
    f.extend_from_slice(&[2, 0, 0, 0, b'B', b'I', b'N', 0, 7, 8]);
    f
}

#[test]
fn glb_chunks_split() {
    let chunks = split_glb_chunks(&glb_file());
    assert_eq!(chunks.len(), 2);
    assert!(chunks[0].chunk_type == ChunkType::JSON);
    assert_eq!(chunks[0].data, b"{} ".to_vec());
    assert!(chunks[1].chunk_type == ChunkType::BIN);
    assert_eq!(chunks[1].data, vec![7, 8]);
    assert_eq!(pick_chunks(&chunks), (1, 0));
}

#[test]
fn glb_defaults_without_chunks() {
    let chunks = split_glb_chunks(&[0u8; 12]);
    assert!(chunks.is_empty());
    assert_eq!(pick_chunks(&chunks), (1, 0));
}

#[test]
fn glb_last_chunk_of_each_kind() {
    let mut f = glb_file();
    f.extend_from_slice(&[0, 0, 0, 0, b'J', b'S', b'O', b'N']);
    let chunks = split_glb_chunks(&f);
    assert_eq!(chunks.len(), 3);
    assert!(chunks[2].data.is_empty());
    assert_eq!(pick_chunks(&chunks), (1, 2));
}

#[test]
fn indices_bytes() {
    assert_eq!(decode_indices(&[1, 255], GLtypes::UnsignedByte), vec![1, 255]);
    assert_eq!(decode_indices(&[1, 255], GLtypes::SignedByte), vec![1, 0xFFFF_FFFF]);
}

#[test]
fn indices_shorts() {
    assert_eq!(decode_indices(&[1, 2, 0xff, 0xff], GLtypes::UnsignedShort), vec![0x0201, 0xFFFF]);
    assert_eq!(decode_indices(&[1, 2, 0xff, 0xff], GLtypes::SignedShort), vec![0x0201, 0xFFFF_FFFF]);
    assert_eq!(decode_indices(&[0, 0x80], GLtypes::SignedShort), vec![0xFFFF_8000]);
}

#[test]
fn indices_ints_and_floats() {
    assert_eq!(decode_indices(&[4, 3, 2, 1, 0, 0, 0, 0], GLtypes::UnsignedInt), vec![0x0102_0304, 0]);
    assert_eq!(decode_indices(&[4, 3, 2, 1], GLtypes::Float), Vec::<u32>::new());
}
