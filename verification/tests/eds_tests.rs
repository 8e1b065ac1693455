use rsmt2d::extended_data_square::SquareIndex;
use rsmt2d::{
    new_default_tree, new_test_leo_rs_codec, Codec, CodecError, CodecResult, DefaultTree, EdsError, EdsResult,
    ExtendedDataSquare, RepairError, RepairResult, Tree, VERSION,
};

fn four_chunks() -> Vec<Vec<u8>> {
    vec![
        vec![1, 2, 3, 4],     // chunk 0
        vec![5, 6, 7, 8],     // chunk 1
        vec![9, 10, 11, 12],  // chunk 2
        vec![13, 14, 15, 16], // chunk 3
    ]
}

fn tree_fn() -> DefaultTree {
    new_default_tree()
}

#[test]
fn test_create_from_data() {
    let codec = new_test_leo_rs_codec();
    let data = four_chunks();

    let eds = ExtendedDataSquare::new(data, codec).unwrap();
    assert_eq!(eds.width(), 4);
    assert_eq!(eds.original_width(), 2);
}

#[test]
fn test_compute_with_parity() {
    let codec = new_test_leo_rs_codec();
    let data = four_chunks();

    let eds = ExtendedDataSquare::compute_extended_data_square(data, codec, tree_fn).unwrap();
    assert_eq!(eds.width(), 4);
    assert_eq!(eds.original_width(), 2);
}

#[test]
fn test_flattened() {
    let codec = new_test_leo_rs_codec();
    let data = four_chunks();

    let eds = ExtendedDataSquare::new(data, codec).unwrap();
    let flattened = eds.flattened();
    assert_eq!(flattened.len(), 16); // 4x4 = 16 chunks
}

#[test]
fn test_row_column_roots_consistency() {
    let codec = new_test_leo_rs_codec();
    let data = four_chunks();

    let eds = ExtendedDataSquare::compute_extended_data_square(data, codec, tree_fn).unwrap();

    let row_roots1 = eds.row_roots().unwrap();
    let row_roots2 = eds.row_roots().unwrap();
    assert_eq!(row_roots1, row_roots2);

    let col_roots1 = eds.col_roots().unwrap();
    let col_roots2 = eds.col_roots().unwrap();
    assert_eq!(col_roots1, col_roots2);
}

#[test]
fn test_square_index() {
    let index = SquareIndex::new(1, 2);
    assert_eq!(index.row, 1);
    assert_eq!(index.col, 2);
}

#[test]
fn test_get_set_chunk() {
    let codec = new_test_leo_rs_codec();
    let data = four_chunks();

    let mut eds = ExtendedDataSquare::new(data, codec).unwrap();

    let index = SquareIndex::new(0, 0);
    let chunk = eds.get_chunk(index).unwrap();
    assert_eq!(chunk, &vec![1, 2, 3, 4]);

    let new_chunk = vec![10, 20, 30, 40];
    eds.set_chunk(index, new_chunk.clone()).unwrap();

    let updated_chunk = eds.get_chunk(index).unwrap();
    assert_eq!(updated_chunk, &new_chunk);
}

#[test]
fn test_index_out_of_bounds() {
    let codec = new_test_leo_rs_codec();
    let data = four_chunks();

    let eds = ExtendedDataSquare::new(data, codec).unwrap();

    let index = SquareIndex::new(10, 10);
    assert!(eds.get_chunk(index).is_err());
}

#[test]
fn test_invalid_dimensions() {
    let codec = new_test_leo_rs_codec();

    // Non-square data (3 chunks instead of 4)
    let data = vec![vec![1, 2, 3], vec![4, 5, 6], vec![7, 8, 9]];

    // 3 is not a perfect square, so this should fail
    assert!(ExtendedDataSquare::new(data, codec).is_err());
}

#[test]
fn test_example_usage() {
    // Test the example from the documentation
    let codec = new_test_leo_rs_codec();

    // Create 4 chunks for a 2x2 square
    let data = four_chunks();

    let eds = ExtendedDataSquare::compute_extended_data_square(data, codec, tree_fn)
        .expect("Failed to compute EDS");

    assert_eq!(eds.width(), 4); // 2x2 -> 4x4 after Reed-Solomon
}

#[test]
fn test_api_integration() {
    // Test that all main components work together
    let codec = new_test_leo_rs_codec();
    let mut tree = new_default_tree();

    // Test codec with smaller data
    let test_data = vec![vec![1, 2, 3]; 2]; // 2 chunks for 2+2 codec
    let encoded = codec.encode(test_data.clone()).unwrap();
    assert_eq!(encoded.len(), 4); // data + parity

    // Test tree
    tree.push(b"test data");
    let root = tree.root();
    assert_eq!(root.len(), 32); // SHA256 hash

    // Test error types
    let _: EdsResult<()> = Err(EdsError::InvalidData("test".to_string()));
    let _: CodecResult<()> = Err(CodecError::InsufficientData);
    let _: RepairResult<()> = Err(RepairError::MissingRequiredData);
}

#[test]
fn version_is_the_package_version() {
    assert_eq!(VERSION, "0.1.0");
}

#[test]
fn new_places_data_in_top_left_quadrant() {
    let eds = ExtendedDataSquare::new(four_chunks(), new_test_leo_rs_codec()).unwrap();
    assert_eq!(eds.get_chunk(SquareIndex::new(0, 1)).unwrap(), &vec![5, 6, 7, 8]);
    assert_eq!(eds.get_chunk(SquareIndex::new(1, 0)).unwrap(), &vec![9, 10, 11, 12]);
    assert_eq!(eds.get_chunk(SquareIndex::new(1, 1)).unwrap(), &vec![13, 14, 15, 16]);
    assert!(eds.get_chunk(SquareIndex::new(2, 3)).unwrap().is_empty());
}

#[test]
fn compute_keeps_data_and_encodes_axes() {
    let codec = new_test_leo_rs_codec();
    let eds = ExtendedDataSquare::compute_extended_data_square(four_chunks(), codec, tree_fn).unwrap();
    let data = four_chunks();
    for r in 0..2 {
        for c in 0..2 {
            assert_eq!(eds.get_chunk(SquareIndex::new(r, c)).unwrap(), &data[r * 2 + c]);
        }
    }
    // Each row of the original quadrant is followed by its parity.
    let codec = new_test_leo_rs_codec();
    for r in 0..2 {
        let row = vec![data[r * 2].clone(), data[r * 2 + 1].clone()];
        let encoded = codec.encode(row).unwrap();
        for c in 0..4 {
            assert_eq!(eds.get_chunk(SquareIndex::new(r, c)).unwrap(), &encoded[c]);
        }
    }
    // Every column is the encoding of its first two chunks.
    for c in 0..4 {
        let top = vec![
            eds.get_chunk(SquareIndex::new(0, c)).unwrap().clone(),
            eds.get_chunk(SquareIndex::new(1, c)).unwrap().clone(),
        ];
        let encoded = codec.encode(top).unwrap();
        for r in 0..4 {
            assert_eq!(eds.get_chunk(SquareIndex::new(r, c)).unwrap(), &encoded[r]);
        }
    }
}

#[test]
fn input_errors_and_their_messages() {
    let codec = new_test_leo_rs_codec();
    match ExtendedDataSquare::new(vec![], codec) {
        Err(EdsError::InvalidData(m)) => assert_eq!(m, "Input data cannot be empty"),
        _ => panic!("expected an empty input error"),
    }
    match ExtendedDataSquare::new(vec![vec![1u8]; 3], new_test_leo_rs_codec()) {
        Err(EdsError::InvalidDimensions(m)) => assert_eq!(m, "Data length 3 is not a perfect square"),
        _ => panic!("expected a dimension error"),
    }
    match ExtendedDataSquare::new(vec![vec![1u8], vec![2u8], vec![3u8, 3], vec![4u8]], new_test_leo_rs_codec()) {
        Err(EdsError::InvalidData(m)) => assert_eq!(m, "Chunk 2 has size 2 but expected 1"),
        _ => panic!("expected an uneven chunk error"),
    }
    match ExtendedDataSquare::new(vec![vec![1u8]; 9], new_test_leo_rs_codec()) {
        Err(EdsError::InvalidDimensions(m)) => assert_eq!(m, "Data width 3 exceeds codec capacity 2"),
        _ => panic!("expected a capacity error"),
    }
    match ExtendedDataSquare::compute_extended_data_square(vec![vec![]; 4], new_test_leo_rs_codec(), tree_fn) {
        Err(EdsError::Codec(CodecError::EncodingFailed(_))) => {}
        _ => panic!("expected a codec error"),
    }
}

#[test]
fn set_chunk_out_of_bounds_leaves_square() {
    let mut eds = ExtendedDataSquare::new(four_chunks(), new_test_leo_rs_codec()).unwrap();
    match eds.set_chunk(SquareIndex::new(4, 0), vec![1]) {
        Err(EdsError::IndexOutOfBounds { row, col, width }) => assert_eq!((row, col, width), (4, 0, 4)),
        _ => panic!("expected an index error"),
    }
    assert_eq!(eds.get_chunk(SquareIndex::new(0, 0)).unwrap(), &vec![1, 2, 3, 4]);
}

#[test]
fn flattened_chunks_imported_give_the_same_square() {
    let codec = new_test_leo_rs_codec();
    let eds = ExtendedDataSquare::compute_extended_data_square(four_chunks(), codec, tree_fn).unwrap();
    let flat: Vec<Option<Vec<u8>>> = eds.flattened().into_iter().map(Some).collect();
    let imported =
        ExtendedDataSquare::import_extended_data_square(flat, new_test_leo_rs_codec(), tree_fn).unwrap();
    assert_eq!(imported.width(), 4);
    assert_eq!(imported.flattened(), eds.flattened());
    assert_eq!(imported.row_roots().unwrap(), eds.row_roots().unwrap());
}

#[test]
fn import_of_non_square_fails() {
    match ExtendedDataSquare::import_extended_data_square(vec![None; 5], new_test_leo_rs_codec(), tree_fn) {
        Err(EdsError::InvalidDimensions(m)) => assert_eq!(m, "Flattened data length 5 is not a perfect square"),
        _ => panic!("expected a dimension error"),
    }
}

#[test]
fn roots_are_merkle_roots_of_axes() {
    let codec = new_test_leo_rs_codec();
    let eds = ExtendedDataSquare::compute_extended_data_square(four_chunks(), codec, tree_fn).unwrap();
    let rows = eds.row_roots().unwrap();
    let cols = eds.col_roots().unwrap();
    for i in 0..4 {
        let mut row_tree = new_default_tree();
        let mut col_tree = new_default_tree();
        for j in 0..4 {
            row_tree.push(eds.get_chunk(SquareIndex::new(i, j)).unwrap());
            col_tree.push(eds.get_chunk(SquareIndex::new(j, i)).unwrap());
        }
        assert_eq!(rows[i], row_tree.root());
        assert_eq!(cols[i], col_tree.root());
    }
}

#[test]
fn repair_checks_roots() {
    let codec = new_test_leo_rs_codec();
    let mut eds = ExtendedDataSquare::compute_extended_data_square(four_chunks(), codec, tree_fn).unwrap();
    let rows = eds.row_roots().unwrap();
    let cols = eds.col_roots().unwrap();
    assert!(eds.repair(rows.clone(), cols.clone()).is_ok());

    match eds.repair(rows[..3].to_vec(), cols.clone()) {
        Err(RepairError::ValidationFailed(m)) => assert_eq!(m, "Expected 4 row roots, got 3"),
        _ => panic!("expected a validation error"),
    }
    match eds.repair(rows.clone(), vec![]) {
        Err(RepairError::ValidationFailed(m)) => assert_eq!(m, "Expected 4 column roots, got 0"),
        _ => panic!("expected a validation error"),
    }
    let mut wrong = cols.clone();
    wrong[2] = vec![0u8; 32];
    match eds.repair(rows.clone(), wrong) {
        Err(RepairError::RootHashMismatch { expected, actual }) => {
            assert_eq!(expected, vec![0u8; 32]);
            assert_eq!(actual, cols[2]);
        }
        _ => panic!("expected a root mismatch"),
    }
}

#[test]
fn clone_is_an_equal_square() {
    let codec = new_test_leo_rs_codec();
    let eds = ExtendedDataSquare::compute_extended_data_square(four_chunks(), codec, tree_fn).unwrap();
    let copy = eds.clone();
    assert_eq!(copy.width(), eds.width());
    assert_eq!(copy.original_width(), eds.original_width());
    assert_eq!(copy.flattened(), eds.flattened());
}

#[test]
fn repair_restores_missing_and_corrupted_chunks() {
    let codec = new_test_leo_rs_codec();
    let orig = ExtendedDataSquare::compute_extended_data_square(four_chunks(), codec, tree_fn).unwrap();
    let rows = orig.row_roots().unwrap();
    let cols = orig.col_roots().unwrap();
    let mut eds = orig.clone();
    eds.set_chunk(SquareIndex::new(0, 0), vec![0, 0, 0, 0]).unwrap();
    eds.set_chunk(SquareIndex::new(3, 2), vec![]).unwrap();
    assert_ne!(eds.flattened(), orig.flattened());
    eds.repair(rows.clone(), cols.clone()).unwrap();
    assert_eq!(eds.flattened(), orig.flattened());
    assert_eq!(eds.row_roots().unwrap(), rows);
    assert_eq!(eds.col_roots().unwrap(), cols);
}

#[test]
fn repair_restores_an_imported_square_with_missing_chunks() {
    let codec = new_test_leo_rs_codec();
    let orig = ExtendedDataSquare::compute_extended_data_square(four_chunks(), codec, tree_fn).unwrap();
    let rows = orig.row_roots().unwrap();
    let cols = orig.col_roots().unwrap();
    let mut flat: Vec<Option<Vec<u8>>> = orig.flattened().into_iter().map(Some).collect();
    flat[0] = None;
    flat[2] = None;
    flat[4] = None;
    flat[6] = None;
    let mut eds = ExtendedDataSquare::import_extended_data_square(flat, new_test_leo_rs_codec(), tree_fn).unwrap();
    eds.repair(rows, cols).unwrap();
    assert_eq!(eds.flattened(), orig.flattened());
}

#[test]
fn repair_that_cannot_rebuild_leaves_square() {
    let codec = new_test_leo_rs_codec();
    let orig = ExtendedDataSquare::compute_extended_data_square(four_chunks(), codec, tree_fn).unwrap();
    let rows = orig.row_roots().unwrap();
    let cols = orig.col_roots().unwrap();
    let mut eds = orig.clone();
    // Every chunk of the first two rows is lost: no column keeps enough.
    for r in 0..2 {
        for c in 0..4 {
            eds.set_chunk(SquareIndex::new(r, c), vec![]).unwrap();
        }
    }
    for c in 0..4 {
        eds.set_chunk(SquareIndex::new(2, c), vec![]).unwrap();
    }
    let before = eds.flattened();
    match eds.repair(rows.clone(), cols) {
        Err(RepairError::RootHashMismatch { expected, .. }) => assert_eq!(expected, rows[0]),
        _ => panic!("expected a root mismatch"),
    }
    assert_eq!(eds.flattened(), before);
}

#[test]
fn tree_roots_are_digest_sized() {
    let mut tree = new_default_tree();
    assert_eq!(tree.root().len(), 32);
    tree.push(b"x");
    assert_eq!(tree.root().len(), 32);
}

#[test]
fn repair_rebuilds_rows_when_columns_lack_chunks() {
    let codec = new_test_leo_rs_codec();
    let orig = ExtendedDataSquare::compute_extended_data_square(four_chunks(), codec, tree_fn).unwrap();
    let rows = orig.row_roots().unwrap();
    let cols = orig.col_roots().unwrap();
    let mut eds = orig.clone();
    // Three rows are damaged, within columns 0 and 1: those columns keep one
    // vouched chunk each, while every damaged row keeps half of its chunks.
    eds.set_chunk(SquareIndex::new(0, 0), vec![]).unwrap();
    eds.set_chunk(SquareIndex::new(1, 1), vec![7, 7, 7, 7]).unwrap();
    eds.set_chunk(SquareIndex::new(2, 0), vec![]).unwrap();
    assert_ne!(eds.flattened(), orig.flattened());
    eds.repair(rows.clone(), cols.clone()).unwrap();
    assert_eq!(eds.flattened(), orig.flattened());
}

#[test]
fn repair_restores_chunks_lost_in_half_the_columns() {
    let codec = new_test_leo_rs_codec();
    let orig = ExtendedDataSquare::compute_extended_data_square(four_chunks(), codec, tree_fn).unwrap();
    let rows = orig.row_roots().unwrap();
    let cols = orig.col_roots().unwrap();
    let mut eds = orig.clone();
    for r in 0..4 {
        eds.set_chunk(SquareIndex::new(r, 0), vec![]).unwrap();
        eds.set_chunk(SquareIndex::new(r, 3), vec![]).unwrap();
    }
    eds.repair(rows.clone(), cols.clone()).unwrap();
    assert_eq!(eds.flattened(), orig.flattened());
}

#[test]
fn repair_restores_chunks_lost_in_half_the_rows() {
    let codec = new_test_leo_rs_codec();
    let orig = ExtendedDataSquare::compute_extended_data_square(four_chunks(), codec, tree_fn).unwrap();
    let rows = orig.row_roots().unwrap();
    let cols = orig.col_roots().unwrap();
    let mut eds = orig.clone();
    for c in 0..4 {
        eds.set_chunk(SquareIndex::new(1, c), vec![]).unwrap();
        eds.set_chunk(SquareIndex::new(2, c), vec![]).unwrap();
    }
    eds.repair(rows.clone(), cols.clone()).unwrap();
    assert_eq!(eds.flattened(), orig.flattened());
}
