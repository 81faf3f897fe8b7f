//! The Fiat-Shamir transcript.
//!
//! The transcript accumulates the canonical byte encoding of every message
//! exchanged.  A challenge is the Keccak-256 digest of the entire absorbed
//! history, reduced into the field — a pure function of the absorbed
//! bytes, which is what lets the verifier re-derive the prover's
//! challenges bit for bit.

use vstd::prelude::*;
use sha3::Digest;
use crate::field::{Fp, bytes_mod, in_field};

verus! {

/// What Keccak-256 returns on a byte string: a 32-byte digest that is a
/// function of the input bytes alone.
pub uninterp spec fn keccak_of(data: Seq<u8>) -> Seq<u8>;

/// Relies on `sha3::Keccak256::digest` (the one-shot form of the Digest
/// interface): a 32-byte digest determined by the input bytes alone.
#[verifier::external_body]
fn keccak256(data: &Vec<u8>) -> (r: Vec<u8>)
    ensures
        r@ == keccak_of(data@),
        r@.len() == 32,
{
    sha3::Keccak256::digest(data.as_slice()).to_vec()
}

/// The field element that a transcript holding bytes `t` answers with.
pub open spec fn challenge_of(t: Seq<u8>) -> int {
    bytes_mod(keccak_of(t))
}

/// A Fiat-Shamir transcript: the accumulated protocol history.
pub struct Transcript {
    data: Vec<u8>,
}

impl View for Transcript {
    type V = Seq<u8>;

    closed spec fn view(&self) -> Seq<u8> {
        self.data@
    }
}

impl Transcript {
    /// A fresh transcript with an empty history.
    pub fn new() -> (t: Transcript)
        ensures
            t@ == Seq::<u8>::empty(),
    {
        Transcript { data: Vec::new() }
    }

    /// Absorb bytes into the transcript: they are appended to the history
    /// and bind every later challenge.
    pub fn absorb(&mut self, data: &[u8])
        ensures
            final(self)@ == old(self)@ + data@,
    {
        let mut i: usize = 0;
        while i < data.len()
            invariant
                i <= data@.len(),
                self@ == old(self)@ + data@.take(i as int),
            decreases data@.len() - i,
        {
            let b = data[i];
            self.data.push(b);
            proof {
                assert(old(self)@ + data@.take(i as int + 1) =~= (old(self)@ + data@.take(
                    i as int,
                )).push(data@[i as int]));
            }
            i = i + 1;
        }
        proof {
            assert(data@.take(data@.len() as int) =~= data@);
        }
    }

    /// Squeeze a field-element challenge: the digest of the whole history,
    /// reduced modulo the field order.  The history is left untouched, so
    /// later rounds keep binding to everything absorbed so far.
    pub fn squeeze_challenge(&mut self) -> (r: Fp)
        ensures
            final(self)@ == old(self)@,
            r@ == challenge_of(old(self)@),
            in_field(r@),
    {
        let digest = keccak256(&self.data);
        Fp::from_be_bytes_mod_order(&digest)
    }

    /// Squeeze a raw-byte challenge of the requested length, up to the
    /// digest width of 32 bytes.
    pub fn squeeze_bytes(&mut self, output_len: usize) -> (r: Vec<u8>)
        ensures
            final(self)@ == old(self)@,
            output_len <= 32 ==> r@ == keccak_of(old(self)@).take(output_len as int),
            output_len > 32 ==> r@ == keccak_of(old(self)@),
    {
        let mut hash = keccak256(&self.data);
        if output_len <= 32 {
            hash.truncate(output_len);
        }
        hash
    }
}

} // verus!
