use vstd::prelude::*;
use siphasher::sip::SipHasher13;
use std::hash::Hash;
use std::hash::Hasher as StdHasher;

verus! {

/// The 64-bit fingerprint that `Hasher::hash` computes for a text. The digest
/// is a function of the hashed characters alone, so it gets a name instead of
/// a transcription of the algorithm.
pub uninterp spec fn sip13_of(s: Seq<char>) -> u64;

/// Deterministic, non-cryptographic content hasher used for change detection.
#[derive(Debug)]
pub struct Hasher {}

impl Hasher {
    pub fn new() -> (r: Hasher) {
        Hasher {  }
    }

    /// Relies on siphasher's `SipHasher13::new`, which fixes both keys to
    /// zero, and on `str`'s `Hash` impl: the same text always gives the same
    /// 64-bit digest, on every run and platform.
    #[verifier::external_body]
    pub fn hash(&self, data: &str) -> (r: u64)
        ensures
            r == sip13_of(data@),
    {
        let mut hasher = SipHasher13::new();
        data.hash(&mut hasher);
        hasher.finish()
    }
}

impl Default for Hasher {
    fn default() -> (r: Hasher)
        ensures
            r == (Hasher {  }),
    {
        Hasher {  }
    }
}

} // verus!
