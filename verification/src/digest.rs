use vstd::prelude::*;

verus! {

/// A fixed-size 256-bit content digest, held as four 64-bit words.
///
/// Block hashes, previous-block hashes, ledger hashes and the composite
/// staged-ledger hash are all values of this type.
#[derive(Clone, Copy, PartialEq, Eq, Structural, Debug, Hash)]
pub struct Digest {
    pub w0: u64,
    pub w1: u64,
    pub w2: u64,
    pub w3: u64,
}

impl Digest {
    /// A digest whose words all hold the same value; convenient for
    /// writing small distinct digests.
    pub fn of_word(w: u64) -> (r: Digest)
        ensures
            r == (Digest { w0: w, w1: w, w2: w, w3: w }),
    {
        Digest { w0: w, w1: w, w2: w, w3: w }
    }
}

} // verus!
