//! The codec interface of the data square: erasure coding of one row or
//! column at a time.
use vstd::prelude::*;
use crate::codec::agrees_on_present;
use crate::datasquare::{SquareError, SquareErrorKind};
use crate::shares::{opt_shares_view, shares_view};

verus! {

/// Erasure codec used to extend and repair the rows and columns of a data
/// square.
///
/// An implementation states what it computes through the spec functions,
/// and each executable method returns exactly what they say.
pub trait ErasureCodec {
    /// The outcome of encoding the data shares of an axis: its parity shares,
    /// or the error.
    spec fn spec_parity(&self, data: Seq<Seq<u8>>) -> Result<Seq<Seq<u8>>, SquareErrorKind>;

    /// The outcome of decoding an axis whose shares may be missing: all of
    /// its shares, or the error.
    spec fn spec_recover(&self, data: Seq<Option<Seq<u8>>>) -> Result<Seq<Seq<u8>>, SquareErrorKind>;

    /// The largest number of original shares the codec can extend.
    spec fn spec_max_shares(&self) -> nat;

    /// The name of the codec.
    spec fn spec_name(&self) -> Seq<char>;

    /// Whether shares of the given size can be coded, or the error.
    spec fn spec_validate_chunk_size(&self, chunk_size: nat) -> Result<(), SquareErrorKind>;

    /// Encode the data shares of an axis into its parity shares.
    fn encode(&self, data: &[Vec<u8>]) -> (r: Result<Vec<Vec<u8>>, SquareError>)
        ensures
            match r {
                Ok(v) => self.spec_parity(shares_view(data@)) == Ok::<Seq<Seq<u8>>, SquareErrorKind>(shares_view(v@)),
                Err(e) => self.spec_parity(shares_view(data@)) == Err::<Seq<Seq<u8>>, SquareErrorKind>(e.kind()),
            },
    ;

    /// Decode an axis whose shares may be missing into all of its shares,
    /// keeping those that are present: whenever the shares present are those
    /// of some data followed by its parity, that whole axis.
    fn decode(&self, data: &[Option<Vec<u8>>]) -> (r: Result<Vec<Vec<u8>>, SquareError>)
        ensures
            match r {
                Ok(v) => self.spec_recover(opt_shares_view(data@)) == Ok::<Seq<Seq<u8>>, SquareErrorKind>(shares_view(v@)),
                Err(e) => self.spec_recover(opt_shares_view(data@)) == Err::<Seq<Seq<u8>>, SquareErrorKind>(e.kind()),
            },
            r matches Ok(v) ==> agrees_on_present(opt_shares_view(data@), shares_view(v@)),
            r matches Ok(out) ==> forall|x: Seq<Seq<u8>>|
                #[trigger] self.spec_parity(x) matches Ok(parity) ==> (agrees_on_present(
                    opt_shares_view(data@),
                    x + parity,
                ) ==> shares_view(out@) == x + parity),
    ;

    /// Get the largest number of original shares the codec can extend.
    fn max_chunks(&self) -> (n: usize)
        ensures
            n as nat == self.spec_max_shares(),
    ;

    /// Get the name of the codec.
    fn name(&self) -> (s: String)
        ensures
            s@ == self.spec_name(),
    ;

    /// Check that shares of the given size can be coded.
    fn validate_chunk_size(&self, chunk_size: usize) -> (r: Result<(), SquareError>)
        ensures
            match r {
                Ok(()) => self.spec_validate_chunk_size(chunk_size as nat) == Ok::<(), SquareErrorKind>(()),
                Err(e) => self.spec_validate_chunk_size(chunk_size as nat) == Err::<(), SquareErrorKind>(e.kind()),
            },
    ;
}

} // verus!
