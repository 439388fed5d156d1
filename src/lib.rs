//! Oblivious sorting networks after Batcher's odd-even mergesort, for buffers
//! whose length is a power of two.
use vstd::arithmetic::power2::pow2;
use vstd::prelude::*;

pub mod count;
pub mod exchange;
pub mod fixed;
pub mod generate;
pub mod recursive;
pub mod sortedness;
pub mod stages;
pub mod utils;

verus! {

/// Why a sorter refused a buffer.
#[derive(Clone, Copy, Debug, PartialEq, Eq, Structural)]
pub enum SortError {
    /// The buffer's length is not the width the sorter needs.
    InvalidLength,
}

/// A sorter: what lengths it takes, and what it makes of a buffer.
pub trait SortingNetworkTrait {
    /// Whether a buffer of length `len` is accepted.
    spec fn accepts(&self, len: nat) -> bool;

    /// What an accepted buffer holding `s` holds after sorting.
    spec fn output(&self, s: Seq<u64>) -> Seq<u64>;

    /// Sorts the passed buffer; a refused one is left as it was.
    fn sort(&self, v: &mut Vec<u64>) -> (r: Result<(), SortError>)
        ensures
            r is Ok <==> self.accepts(old(v)@.len()),
            r is Ok ==> final(v)@ == self.output(old(v)@),
            r is Ok ==> exchange::sorted(final(v)@) && final(v)@.to_multiset() == old(v)@.to_multiset(),
            r is Err ==> r == Err::<(), SortError>(SortError::InvalidLength) && final(v)@ == old(v)@,
    ;
}

/// A sorter for one width, `2^order`.
pub trait FixedSizeSortingNetwork {
    spec fn spec_order() -> nat;

    fn order() -> (r: usize)
        ensures
            r == Self::spec_order(),
            r < usize::BITS,
    ;

    fn width() -> (r: usize)
        ensures
            r == pow2(Self::spec_order()),
    {
        let order = Self::order();
        proof {
            generate::lemma_shl_one(order);
        }
        1 << order
    }
}

} // verus!
