//! Two-dimensional Reed-Solomon merkle tree data availability scheme: data
//! arranged in a square is extended with Reed-Solomon parity along its rows
//! and columns, committed to by the merkle roots of every row and column, and
//! repaired from any sufficient part of its shares.
pub mod shares;
pub mod text;
pub mod error;
pub mod traits;
pub mod tree;
pub mod codec;
pub mod extended_data_square;
pub mod datasquare;
pub mod erasure;
pub mod crossword;
pub mod completion;
pub mod extendeddatasquare;
pub mod laws;

pub use error::{CodecError, CodecResult, EdsError, EdsResult, RepairError, RepairResult};
pub use traits::{Codec, Tree};
pub use codec::{new_leo_rs_codec, new_test_leo_rs_codec, LeoRSCodec};
pub use tree::{new_default_tree, DefaultTree};
pub use extended_data_square::ExtendedDataSquare;
pub use datasquare::{new_default_tree_constructor, Axis, DataSquare, SquareError, TreeConstructorFn};
pub use extendeddatasquare::{compute_extended_data_square, import_extended_data_square};

use vstd::prelude::*;

verus! {

/// Library version.
pub const VERSION: &'static str = "0.1.0";

} // verus!
