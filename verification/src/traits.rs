//! Abstract interfaces of the erasure codec and of the merkle tree.
use vstd::prelude::*;
use crate::codec::agrees_on_present;
use crate::error::{CodecError, CodecFailure};
use crate::shares::{opt_shares_view, shares_view};

verus! {

/// Abstract interface for Reed-Solomon codec implementations.
///
/// An implementation states what it computes through the spec functions,
/// and each executable method returns exactly what they say.
pub trait Codec {
    /// The outcome of encoding the given data chunks: the data followed by
    /// its parity chunks, or the error. An implementation that does not
    /// describe it is taken to fail.
    closed spec fn spec_encode(&self, data: Seq<Seq<u8>>) -> Result<Seq<Seq<u8>>, CodecFailure> {
        Err(CodecFailure::EncodingFailed)
    }

    /// The outcome of decoding the given data and parity chunks, some of which
    /// may be missing: the original data chunks, or the error. An
    /// implementation that does not describe it is taken to fail.
    closed spec fn spec_decode(&self, data: Seq<Option<Seq<u8>>>) -> Result<Seq<Seq<u8>>, CodecFailure> {
        Err(CodecFailure::DecodingFailed)
    }

    /// The number of data chunks the codec works on (none, for an
    /// implementation that does not describe it).
    closed spec fn spec_max_chunks(&self) -> nat {
        0
    }

    /// The number of parity chunks the codec generates (none, for an
    /// implementation that does not describe it).
    closed spec fn spec_parity_chunks(&self) -> nat {
        0
    }

    /// Encode data chunks with Reed-Solomon parity.
    /// Takes original data and returns data + parity chunks.
    fn encode(&self, data: Vec<Vec<u8>>) -> (r: Result<Vec<Vec<u8>>, CodecError>)
        ensures
            match r {
                Ok(v) => self.spec_encode(shares_view(data@)) == Ok::<Seq<Seq<u8>>, CodecFailure>(shares_view(v@)),
                Err(e) => self.spec_encode(shares_view(data@)) == Err::<Seq<Seq<u8>>, CodecFailure>(e.failure()),
            },
    ;

    /// Decode and repair data from potentially corrupted chunks.
    /// Takes data + parity chunks (some may be None for missing data)
    /// and returns the original data chunks: whenever the chunks present
    /// are those of the encoding of some data, that data.
    fn decode(&self, data: Vec<Option<Vec<u8>>>) -> (r: Result<Vec<Vec<u8>>, CodecError>)
        ensures
            match r {
                Ok(v) => self.spec_decode(opt_shares_view(data@)) == Ok::<Seq<Seq<u8>>, CodecFailure>(shares_view(v@)),
                Err(e) => self.spec_decode(opt_shares_view(data@)) == Err::<Seq<Seq<u8>>, CodecFailure>(e.failure()),
            },
            r matches Ok(out) ==> forall|x: Seq<Seq<u8>>|
                #[trigger] self.spec_encode(x) matches Ok(encoded) && agrees_on_present(
                    opt_shares_view(data@),
                    encoded,
                ) ==> shares_view(out@) == x,
    ;

    /// Get the maximum number of data chunks this codec can handle.
    fn max_chunks(&self) -> (n: usize)
        ensures
            n as nat == self.spec_max_chunks(),
    ;

    /// Get the number of parity chunks this codec generates.
    fn parity_chunks(&self) -> (n: usize)
        ensures
            n as nat == self.spec_parity_chunks(),
    ;
}

/// Abstract interface for merkle tree operations.
///
/// The root of a tree is a function of the leaves pushed into it.
pub trait Tree {
    /// The leaves pushed since the tree was made or last reset (none, for an
    /// implementation that does not describe them).
    closed spec fn leaves(&self) -> Seq<Seq<u8>> {
        Seq::empty()
    }

    /// The root of a tree that holds the given leaves (empty, for an
    /// implementation that does not describe it).
    closed spec fn root_of(leaves: Seq<Seq<u8>>) -> Seq<u8> {
        Seq::empty()
    }

    /// Add data to merkle tree for root computation.
    fn push(&mut self, data: &[u8])
        ensures
            final(self).leaves() == old(self).leaves().push(data@),
    ;

    /// Compute and return merkle root hash.
    fn root(&self) -> (r: Vec<u8>)
        ensures
            r@ == Self::root_of(self.leaves()),
    ;

    /// Reset the tree to empty state.
    fn reset(&mut self)
        ensures
            final(self).leaves() == Seq::<Seq<u8>>::empty(),
    ;

    /// Get the number of leaves in the tree.
    fn len(&self) -> (n: usize)
        ensures
            n as nat == self.leaves().len(),
    ;

    /// Check if the tree is empty.
    fn is_empty(&self) -> (b: bool)
        ensures
            b == (self.leaves().len() == 0),
    {
        self.len() == 0
    }
}

} // verus!
