use rsmt2d::crossword::ByzantineDataError;
use rsmt2d::datasquare::{Axis, DataSquare, SquareError};
use rsmt2d::erasure::ErasureCodec;
use rsmt2d::extendeddatasquare::{compute_extended_data_square, import_extended_data_square, ExtendedDataSquare};
use rsmt2d::{new_default_tree, new_default_tree_constructor, LeoRSCodec, Tree};
use std::sync::Arc;

fn codec_2_2() -> Arc<LeoRSCodec> {
    Arc::new(LeoRSCodec::new(2, 2).expect("codec"))
}

#[test]
fn test_repair_functionality() {
    let share_size = 64;
    let codec = codec_2_2();

    // Create test data
    let test_data = vec![
        vec![1u8; share_size],
        vec![2u8; share_size],
        vec![3u8; share_size],
        vec![4u8; share_size],
    ];
    let original_data = test_data.clone();

    // Compute EDS
    let mut eds = compute_extended_data_square(test_data, codec.clone(), new_default_tree_constructor())
        .expect("Failed to compute EDS");

    let row_roots = eds.row_roots().expect("Failed to get row roots");
    let col_roots = eds.col_roots().expect("Failed to get col roots");

    // Damage some data
    let mut flattened = eds.flattened();
    flattened[0] = None; // Remove some shares
    flattened[2] = None;
    flattened[4] = None;
    flattened[6] = None;

    // Import damaged data
    let mut damaged_eds = import_extended_data_square(flattened, codec, new_default_tree_constructor())
        .expect("Failed to import damaged EDS");

    // Repair
    damaged_eds.repair(&row_roots, &col_roots).expect("Failed to repair EDS");

    // Verify repair
    let repaired_ods = damaged_eds.flattened_ods();
    for (i, expected) in original_data.iter().enumerate() {
        if let Some(ref actual) = repaired_ods[i] {
            assert_eq!(actual, expected, "Share {} not repaired correctly", i);
        } else {
            panic!("Share {} missing after repair", i);
        }
    }
}

#[test]
fn test_invalid_share_size() {
    let codec = LeoRSCodec::new(2, 2).expect("codec");

    // Test invalid share sizes (not multiples of 64)
    assert!(codec.validate_chunk_size(63).is_err());
    assert!(codec.validate_chunk_size(65).is_err());
    assert!(codec.validate_chunk_size(100).is_err());

    // Test valid share sizes
    assert!(codec.validate_chunk_size(64).is_ok());
    assert!(codec.validate_chunk_size(128).is_ok());
    assert!(codec.validate_chunk_size(256).is_ok());
}

#[test]
fn test_uneven_chunks_error() {
    let codec = codec_2_2();

    // Create data with uneven share sizes
    let data = vec![
        vec![1u8; 64],
        vec![2u8; 128], // Different size
        vec![3u8; 64],
        vec![4u8; 64],
    ];

    let result = compute_extended_data_square(data, codec, new_default_tree_constructor());
    assert!(result.is_err());
}

#[test]
fn test_data_square_operations() {
    let share_size = 64;
    let data = vec![
        Some(vec![1u8; share_size]),
        Some(vec![2u8; share_size]),
        Some(vec![3u8; share_size]),
        Some(vec![4u8; share_size]),
    ];

    let mut ds =
        DataSquare::new(data, new_default_tree_constructor(), share_size).expect("Failed to create DataSquare");

    // Test getting cells
    let cell_0_0 = ds.get_cell(0, 0);
    assert!(cell_0_0.is_some());
    assert_eq!(cell_0_0.unwrap(), vec![1u8; share_size]);

    // Test getting row and column
    let row_0 = ds.row(0);
    assert_eq!(row_0.len(), 2);
    assert!(row_0[0].is_some());
    assert!(row_0[1].is_some());

    let col_0 = ds.col(0);
    assert_eq!(col_0.len(), 2);
    assert!(col_0[0].is_some());
    assert!(col_0[1].is_some());

    // Test setting a cell
    let new_share = vec![99u8; share_size];
    let result = ds.set_cell(0, 0, new_share.clone());
    assert!(result.is_err()); // Should fail because cell is already set

    // Test getting roots
    let row_roots = ds.get_row_roots();
    assert!(row_roots.is_ok());
    let col_roots = ds.get_col_roots();
    assert!(col_roots.is_ok());
}

#[test]
fn test_eds_width_validation() {
    let codec = codec_2_2();

    // Odd widths should fail
    let result = ExtendedDataSquare::new(codec.clone(), new_default_tree_constructor(), 3, 64);
    assert!(result.is_err());

    // Even widths should succeed
    let result = ExtendedDataSquare::new(codec, new_default_tree_constructor(), 4, 64);
    assert!(result.is_ok());
}

#[test]
fn test_codec_encode_decode() {
    let codec = LeoRSCodec::new(2, 2).expect("codec");
    let share_size = 64;

    let data = vec![vec![1u8; share_size], vec![2u8; share_size]];

    // Test encoding
    let parity = codec.encode(&data).expect("Encoding failed");
    assert_eq!(parity.len(), 2); // Should have same number of parity as data

    // Test decoding with missing data
    let mut combined: Vec<Option<Vec<u8>>> = Vec::new();
    combined.push(Some(data[0].clone()));
    combined.push(None); // Missing data share
    combined.push(Some(parity[0].clone()));
    combined.push(Some(parity[1].clone()));

    let decoded = codec.decode(&combined).expect("Decoding failed");
    assert_eq!(decoded.len(), 4);
    assert_eq!(decoded[0], data[0]);
    assert_eq!(decoded[1], data[1]); // Should be reconstructed
}

fn four_shares() -> Vec<Vec<u8>> {
    vec![vec![1u8; 64], vec![2u8; 64], vec![3u8; 64], vec![4u8; 64]]
}

#[test]
fn computed_square_keeps_data_and_is_complete() {
    let eds = compute_extended_data_square(four_shares(), codec_2_2(), new_default_tree_constructor()).unwrap();
    assert_eq!(eds.width(), 4);
    let ods = eds.flattened_ods();
    let expected: Vec<Option<Vec<u8>>> = four_shares().into_iter().map(Some).collect();
    assert_eq!(ods, expected);
    assert!(eds.flattened().iter().all(|s| s.is_some()));
    // Rows and columns of the original quadrant are extended with their parity.
    let codec = LeoRSCodec::new(2, 2).unwrap();
    let row0 = eds.row(0);
    let parity = codec.encode(&[four_shares()[0].clone(), four_shares()[1].clone()]).unwrap();
    assert_eq!(row0[2], Some(parity[0].clone()));
    assert_eq!(row0[3], Some(parity[1].clone()));
    let col1 = eds.col(1);
    let parity = codec.encode(&[four_shares()[1].clone(), four_shares()[3].clone()]).unwrap();
    assert_eq!(col1[2], Some(parity[0].clone()));
    assert_eq!(col1[3], Some(parity[1].clone()));
}

#[test]
fn compute_errors() {
    let big = vec![vec![0u8; 64]; 9];
    assert!(matches!(
        compute_extended_data_square(big, codec_2_2(), new_default_tree_constructor()),
        Err(SquareError::TooManyChunks)
    ));
    let odd_size = vec![vec![0u8; 63]; 4];
    assert!(matches!(
        compute_extended_data_square(odd_size, codec_2_2(), new_default_tree_constructor()),
        Err(SquareError::InvalidChunkSize(_))
    ));
    let three = vec![vec![0u8; 64]; 3];
    assert!(matches!(
        compute_extended_data_square(three, codec_2_2(), new_default_tree_constructor()),
        Err(SquareError::NotSquareNumber)
    ));
    let uneven = vec![vec![0u8; 64], vec![0u8; 128], vec![0u8; 64], vec![0u8; 64]];
    assert!(matches!(
        compute_extended_data_square(uneven, codec_2_2(), new_default_tree_constructor()),
        Err(SquareError::UnevenChunks)
    ));
}

#[test]
fn import_errors() {
    assert!(matches!(
        import_extended_data_square(vec![None; 17], codec_2_2(), new_default_tree_constructor()),
        Err(SquareError::TooManyChunks)
    ));
    assert!(matches!(
        import_extended_data_square(vec![None; 9], codec_2_2(), new_default_tree_constructor()),
        Err(SquareError::InvalidEdsWidth { width: 3 })
    ));
    assert!(matches!(
        import_extended_data_square(vec![None; 5], codec_2_2(), new_default_tree_constructor()),
        Err(SquareError::NotSquareNumber)
    ));
    let mut shares = vec![Some(vec![0u8; 64]); 4];
    shares[3] = Some(vec![0u8; 128]);
    assert!(matches!(
        import_extended_data_square(shares, codec_2_2(), new_default_tree_constructor()),
        Err(SquareError::UnevenChunks)
    ));
}

#[test]
fn flattened_then_imported_is_the_same_square() {
    let eds = compute_extended_data_square(four_shares(), codec_2_2(), new_default_tree_constructor()).unwrap();
    let mut copy = import_extended_data_square(eds.flattened(), codec_2_2(), new_default_tree_constructor()).unwrap();
    let mut original = eds.clone();
    assert_eq!(copy.equals(&mut original).unwrap(), true);
    assert_eq!(copy.flattened(), eds.flattened());
}

#[test]
fn roots_are_row_roots_then_col_roots() {
    let mut eds = compute_extended_data_square(four_shares(), codec_2_2(), new_default_tree_constructor()).unwrap();
    let rows = eds.row_roots().unwrap();
    let cols = eds.col_roots().unwrap();
    let all = eds.roots().unwrap();
    assert_eq!(all.len(), 8);
    assert_eq!(all[..4].to_vec(), rows);
    assert_eq!(all[4..].to_vec(), cols);
    let row2 = eds.row(2);
    let mut tree = new_default_tree();
    for share in row2.iter() {
        tree.push(share.as_ref().unwrap());
    }
    assert_eq!(rows[2], tree.root());
}

#[test]
fn roots_of_incomplete_square_fail() {
    let mut eds = ExtendedDataSquare::new(codec_2_2(), new_default_tree_constructor(), 2, 64).unwrap();
    assert!(matches!(eds.row_roots(), Err(SquareError::IncompleteAxis { axis: Axis::Row })));
    assert!(matches!(eds.col_roots(), Err(SquareError::IncompleteAxis { axis: Axis::Col })));
    assert!(matches!(eds.roots(), Err(SquareError::IncompleteAxis { axis: Axis::Row })));
}

#[test]
fn equals_compares_shares() {
    let mut a = compute_extended_data_square(four_shares(), codec_2_2(), new_default_tree_constructor()).unwrap();
    let mut flat = a.flattened();
    flat[5] = None;
    let mut b = import_extended_data_square(flat, codec_2_2(), new_default_tree_constructor()).unwrap();
    assert_eq!(a.equals(&mut b).unwrap(), false);
    let mut c = ExtendedDataSquare::new(codec_2_2(), new_default_tree_constructor(), 2, 64).unwrap();
    assert_eq!(a.equals(&mut c).unwrap(), false);
}

#[test]
fn repair_of_complete_square_changes_nothing() {
    let mut eds = compute_extended_data_square(four_shares(), codec_2_2(), new_default_tree_constructor()).unwrap();
    let rows = eds.row_roots().unwrap();
    let cols = eds.col_roots().unwrap();
    let before = eds.flattened();
    eds.repair(&rows, &cols).unwrap();
    assert_eq!(eds.flattened(), before);
}

#[test]
fn repair_with_wrong_root_counts_is_unrepairable() {
    let mut eds = compute_extended_data_square(four_shares(), codec_2_2(), new_default_tree_constructor()).unwrap();
    let rows = eds.row_roots().unwrap();
    let cols = eds.col_roots().unwrap();
    assert!(matches!(eds.repair(&rows[..3], &cols), Err(SquareError::UnrepairableDataSquare)));
}

#[test]
fn repair_sanity_check_reports_first_wrong_root() {
    let mut eds = compute_extended_data_square(four_shares(), codec_2_2(), new_default_tree_constructor()).unwrap();
    let rows = eds.row_roots().unwrap();
    let mut cols = eds.col_roots().unwrap();
    cols[1] = vec![0u8; 32];
    match eds.repair(&rows, &cols) {
        Err(SquareError::ReedSolomonError(m)) => {
            assert_eq!(m, "Pre-repair sanity check failed: column 1 has incorrect root")
        }
        _ => panic!("expected a sanity check failure"),
    }
    let mut rows2 = rows.clone();
    rows2[2] = vec![1u8; 32];
    match eds.repair(&rows2, &cols) {
        Err(SquareError::ReedSolomonError(m)) => {
            assert_eq!(m, "Pre-repair sanity check failed: column 1 has incorrect root")
        }
        _ => panic!("expected a sanity check failure"),
    }
    let cols = eds.col_roots().unwrap();
    match eds.repair(&rows2, &cols) {
        Err(SquareError::ReedSolomonError(m)) => {
            assert_eq!(m, "Pre-repair sanity check failed: row 2 has incorrect root")
        }
        _ => panic!("expected a sanity check failure"),
    }
}

#[test]
fn repair_without_enough_shares_is_unrepairable() {
    let eds = compute_extended_data_square(four_shares(), codec_2_2(), new_default_tree_constructor()).unwrap();
    let mut source = eds.clone();
    let rows = source.row_roots().unwrap();
    let cols = source.col_roots().unwrap();
    let mut flat = eds.flattened();
    // Keep only one share in each row and each column.
    for i in 0..16 {
        if i % 5 != 0 {
            flat[i] = None;
        }
    }
    let mut damaged = import_extended_data_square(flat.clone(), codec_2_2(), new_default_tree_constructor()).unwrap();
    assert!(matches!(damaged.repair(&rows, &cols), Err(SquareError::UnrepairableDataSquare)));
    // Nothing present was changed.
    assert_eq!(damaged.flattened(), flat);
}

#[test]
fn repair_restores_a_heavily_damaged_square() {
    let eds = compute_extended_data_square(four_shares(), codec_2_2(), new_default_tree_constructor()).unwrap();
    let mut source = eds.clone();
    let rows = source.row_roots().unwrap();
    let cols = source.col_roots().unwrap();
    let mut flat = eds.flattened();
    // Rows 0 and 1 lose everything; rows 2 and 3 keep their shares.
    for i in 0..8 {
        flat[i] = None;
    }
    let mut damaged = import_extended_data_square(flat, codec_2_2(), new_default_tree_constructor()).unwrap();
    damaged.repair(&rows, &cols).unwrap();
    assert_eq!(damaged.flattened(), eds.flattened());
}

#[test]
fn repair_detects_byzantine_row() {
    let eds = compute_extended_data_square(four_shares(), codec_2_2(), new_default_tree_constructor()).unwrap();
    let mut source = eds.clone();
    let rows = source.row_roots().unwrap();
    let cols = source.col_roots().unwrap();
    let mut flat = eds.flattened();
    // Row 0 keeps two shares, one of them altered, and misses the others.
    flat[0] = Some(vec![9u8; 64]);
    flat[2] = None;
    flat[3] = None;
    // Columns 0 and 1 miss a share each, so that the altered share is not checked first.
    flat[4] = None;
    flat[9] = None;
    let mut damaged = import_extended_data_square(flat, codec_2_2(), new_default_tree_constructor()).unwrap();
    match damaged.repair(&rows, &cols) {
        Err(SquareError::ReedSolomonError(m)) => {
            let shares = vec![Some(vec![9u8; 64]), Some(vec![2u8; 64])];
            let expected = format!(
                "Byzantine data in row 0: ByzantineDataError {{ axis: Row, index: 0, shares: {:?} }}",
                shares
            );
            assert_eq!(m, expected);
        }
        other => panic!("expected byzantine data, got {:?}", other),
    }
}

#[test]
fn byzantine_error_description_matches_debug() {
    let err = ByzantineDataError { axis: Axis::Col, index: 7, shares: vec![Some(vec![1, 2]), None, Some(vec![])] };
    assert_eq!(err.describe(), format!("{:?}", err));
    assert_eq!(err.describe(), "ByzantineDataError { axis: Col, index: 7, shares: [Some([1, 2]), None, Some([])] }");
}

#[test]
fn data_square_set_then_get() {
    let mut ds = DataSquare::new(vec![None, Some(vec![1u8, 2]), None, None], new_default_tree_constructor(), 2)
        .unwrap();
    assert!(ds.set_cell(0, 0, vec![5u8, 6]).is_ok());
    assert_eq!(ds.get_cell(0, 0), Some(vec![5u8, 6]));
    assert_eq!(ds.get_cell(0, 1), Some(vec![1u8, 2]));
    assert_eq!(ds.get_cell(1, 0), None);
    assert!(matches!(ds.set_cell(0, 0, vec![7u8, 7]), Err(SquareError::CellAlreadySet { row: 0, col: 0 })));
    assert!(matches!(
        ds.set_cell(1, 1, vec![7u8]),
        Err(SquareError::CellChunkSizeMismatch { chunk_size: 1, expected_size: 2 })
    ));
    assert_eq!(ds.row(0), vec![Some(vec![5u8, 6]), Some(vec![1u8, 2])]);
    assert_eq!(ds.col(1), vec![Some(vec![1u8, 2]), None]);
    assert_eq!(ds.flattened(), vec![Some(vec![5u8, 6]), Some(vec![1u8, 2]), None, None]);
    assert!(matches!(ds.get_row_roots(), Err(SquareError::IncompleteAxis { axis: Axis::Row })));
}

#[test]
fn data_square_errors() {
    assert!(matches!(
        DataSquare::new(vec![None; 3], new_default_tree_constructor(), 2),
        Err(SquareError::NotSquareNumber)
    ));
    assert!(matches!(
        DataSquare::new(vec![Some(vec![1u8]), None, None, None], new_default_tree_constructor(), 2),
        Err(SquareError::UnevenChunks)
    ));
}

#[test]
fn data_square_slices() {
    let data: Vec<Option<Vec<u8>>> = (0u8..9).map(|i| Some(vec![i])).collect();
    let mut ds = DataSquare::new(data, new_default_tree_constructor(), 1).unwrap();
    assert_eq!(ds.width(), 3);
    assert_eq!(ds.share_size(), 1);
    assert_eq!(ds.row_slice(1, 1, 2), vec![Some(vec![4u8]), Some(vec![5u8])]);
    assert_eq!(ds.col_slice(0, 2, 2), vec![Some(vec![2u8]), Some(vec![5u8])]);
    assert!(ds.set_row_slice(2, 1, vec![vec![70u8], vec![80u8]]).is_ok());
    assert_eq!(ds.row(2), vec![Some(vec![6u8]), Some(vec![70u8]), Some(vec![80u8])]);
    assert!(ds.set_col_slice(0, 1, vec![vec![30u8], vec![60u8]]).is_ok());
    assert_eq!(ds.col(0), vec![Some(vec![0u8]), Some(vec![30u8]), Some(vec![60u8])]);
    assert!(matches!(
        ds.set_row_slice(0, 2, vec![vec![1u8], vec![2u8]]),
        Err(SquareError::RowSliceOutOfBounds { row: 0, from: 2, length: 2, width: 3 })
    ));
    assert!(matches!(
        ds.set_col_slice(1, 3, vec![vec![1u8]]),
        Err(SquareError::ColSliceOutOfBounds { from: 3, col: 1, length: 1, width: 3 })
    ));
    assert!(matches!(ds.set_row_slice(0, 0, vec![vec![1u8, 2]]), Err(SquareError::InvalidChunkSize(_))));
}

#[test]
fn data_square_extend() {
    let data = vec![Some(vec![1u8]), Some(vec![2u8]), Some(vec![3u8]), Some(vec![4u8])];
    let mut ds = DataSquare::new(data, new_default_tree_constructor(), 1).unwrap();
    assert!(matches!(ds.extend_square(2, vec![0u8, 0]), Err(SquareError::FillerChunkSizeMismatch)));
    ds.extend_square(2, vec![0u8]).unwrap();
    assert_eq!(ds.width(), 4);
    assert_eq!(ds.row(0), vec![Some(vec![1u8]), Some(vec![2u8]), Some(vec![0u8]), Some(vec![0u8])]);
    assert_eq!(ds.row(3), vec![Some(vec![0u8]); 4]);
}

#[test]
fn data_square_root_cache_follows_changes() {
    let data = vec![Some(vec![1u8]), Some(vec![2u8]), Some(vec![3u8]), None];
    let mut ds = DataSquare::new(data, new_default_tree_constructor(), 1).unwrap();
    assert!(ds.get_col_roots().is_err());
    assert!(ds.get_row_root(0).is_ok());
    assert!(ds.get_col_root(1).is_err());
    ds.set_cell(1, 1, vec![4u8]).unwrap();
    let rows = ds.get_row_roots().unwrap();
    let mut tree = new_default_tree();
    tree.push(&[3u8]);
    tree.push(&[4u8]);
    assert_eq!(rows[1], tree.root());
    assert_eq!(ds.get_row_roots().unwrap(), rows);
    let copy = ds.clone();
    assert_eq!(copy.flattened(), ds.flattened());
}

#[test]
fn repair_recovers_when_every_column_holds_half() {
    let share_size = 64;
    let ones = vec![1u8; share_size];
    let twos = vec![2u8; share_size];
    let threes = vec![3u8; share_size];
    let fours = vec![4u8; share_size];
    let mut eds = compute_extended_data_square(
        vec![ones.clone(), twos.clone(), threes.clone(), fours.clone()],
        codec_2_2(),
        new_default_tree_constructor(),
    )
    .unwrap();
    let row_roots = eds.row_roots().unwrap();
    let col_roots = eds.col_roots().unwrap();
    let mut flattened = eds.flattened();
    // Rows 0 and 1 keep one share between them; every column keeps half.
    for i in [0usize, 2, 3, 4, 5, 6, 7] {
        flattened[i] = None;
    }
    let mut incomplete = import_extended_data_square(flattened, codec_2_2(), new_default_tree_constructor()).unwrap();
    incomplete.repair(&row_roots, &col_roots).unwrap();
    assert_eq!(incomplete.flattened_ods(), vec![Some(ones), Some(twos), Some(threes), Some(fours)]);
    assert_eq!(incomplete.flattened(), eds.flattened());
}

#[test]
fn repair_completes_when_columns_then_rows_can_be_rebuilt() {
    let share_size = 64;
    let ones = vec![1u8; share_size];
    let twos = vec![2u8; share_size];
    let threes = vec![3u8; share_size];
    let fours = vec![4u8; share_size];
    let mut eds = compute_extended_data_square(
        vec![ones.clone(), twos.clone(), threes.clone(), fours.clone()],
        codec_2_2(),
        new_default_tree_constructor(),
    )
    .unwrap();
    let row_roots = eds.row_roots().unwrap();
    let col_roots = eds.col_roots().unwrap();
    let mut flattened = eds.flattened();
    // Rows 0 and 1 keep one share each and column 2 keeps one share: only
    // columns 0 and 1 can be rebuilt first, and then every row can.
    for i in [0usize, 1, 2, 4, 5, 6, 10] {
        flattened[i] = None;
    }
    let mut incomplete = import_extended_data_square(flattened, codec_2_2(), new_default_tree_constructor()).unwrap();
    incomplete.repair(&row_roots, &col_roots).unwrap();
    assert_eq!(incomplete.flattened(), eds.flattened());
}
