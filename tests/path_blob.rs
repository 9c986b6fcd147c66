use rs3cache_extractor::path_blob::{encode_path_blob, movement_dir, reduce_path_to_breakpoints};

fn decode(blob: &[u8]) -> Vec<(i32, i32)> {
    blob.chunks_exact(12)
        .map(|chunk| {
            let (xb, yb) = chunk.split_at(4);
            let (yb, _) = yb.split_at(4);
            (i32::from_le_bytes(xb.try_into().unwrap()), i32::from_le_bytes(yb.try_into().unwrap()))
        })
        .collect()
}

#[test]
fn encode_path_blob_reduces_straight_segments() {
    let path = vec![(0, 0), (0, 1), (0, 2), (1, 2), (2, 2)];
    let blob = encode_path_blob(path.clone(), 0);
    assert_eq!(blob.len(), 3 * 12);
    assert_eq!(decode(&blob), vec![(0, 0), (0, 2), (2, 2)]);
}

#[test]
fn encode_path_blob_preserves_diagonal_runs() {
    let path = vec![(0, 0), (1, 1), (2, 2), (3, 3)];
    let blob = encode_path_blob(path.clone(), 0);
    assert_eq!(blob.len(), 2 * 12);
    assert_eq!(decode(&blob), vec![(0, 0), (3, 3)]);
}

#[test]
fn blob_is_little_endian_with_plane() {
    let blob = encode_path_blob(vec![(-2, 258), (-1, 258)], 3);
    assert_eq!(blob, vec![0xfe, 0xff, 0xff, 0xff, 2, 1, 0, 0, 3, 0, 0, 0, 0xff, 0xff, 0xff, 0xff, 2, 1, 0, 0, 3, 0, 0, 0]);
}

#[test]
fn breakpoints_of_short_paths() {
    assert_eq!(reduce_path_to_breakpoints(&vec![]), Vec::<(i32, i32)>::new());
    assert_eq!(reduce_path_to_breakpoints(&vec![(4, 4)]), vec![(4, 4)]);
    assert_eq!(reduce_path_to_breakpoints(&vec![(0, 0), (5, 0)]), vec![(0, 0), (5, 0)]);
    assert_eq!(movement_dir((0, 0), (5, -3)), Some((1, -1)));
    assert_eq!(movement_dir((2, 2), (2, 2)), None);
}
