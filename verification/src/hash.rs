//! Keyed hashing: the hasher capability the map is parameterised by, and the
//! provided hasher built on aHash.
use core::hash::BuildHasher;
use core::hash::Hasher;
use vstd::prelude::*;
use crate::keys::PhfKey;
use crate::lanes::Hashes;
use crate::lanes::Lane;

verus! {

/// A hasher that is created from a seed and fed bytes.
///
/// The model of a hasher is the seed it was created with and the bytes it has
/// been given so far, in order.
pub trait Seedable: Sized {
    type Seed;

    /// The seed this hasher was created with.
    spec fn seed(&self) -> Self::Seed;

    /// Everything written so far, concatenated.
    spec fn written(&self) -> Seq<u8>;

    /// A fresh hasher for `seed` that has been given nothing yet.
    fn new_with_seed(seed: &Self::Seed) -> (hasher: Self)
        ensures
            hasher.seed() == *seed,
            hasher.written() == Seq::<u8>::empty(),
    ;

    /// Appends `bytes` to what the hasher has been given.
    fn write(&mut self, bytes: &[u8])
        ensures
            final(self).seed() == old(self).seed(),
            final(self).written() == old(self).written() + bytes@,
    ;
}

/// A seedable hasher whose output is split into three lanes.
pub trait ChdHasher: Seedable {
    /// The triple for `bytes` under `seed`: a function of these two alone.
    spec fn spec_triple(seed: Self::Seed, bytes: Seq<u8>) -> Hashes;

    /// The triple for what has been written so far.
    fn finish_triple(&self) -> (triple: Hashes)
        ensures
            triple == Self::spec_triple(self.seed(), self.written()),
    ;
}

/// The 64-bit output of aHash for a hasher built from the four seed words
/// and given `bytes` in a single write.
pub uninterp spec fn ahash_output(seed: (u64, u64, u64, u64), bytes: Seq<u8>) -> u64;

/// Builds an aHash hasher with `ahash::RandomState::with_seeds` and
/// `build_hasher`, writes `bytes` to it once and returns `finish()`.
///
/// `with_seeds` combines the four words with fixed constants and the hasher
/// reads nothing but that state and the bytes written, so the output is
/// determined by the arguments.
#[verifier::external_body]
fn ahash_keyed(seed: &(u64, u64, u64, u64), bytes: &[u8]) -> (output: u64)
    ensures
        output == ahash_output(*seed, bytes@),
{
    let mut state = ahash::RandomState::with_seeds(seed.0, seed.1, seed.2, seed.3).build_hasher();
    state.write(bytes);
    state.finish()
}

/// Splits a 64-bit hash into three lanes: bits 32..48, bits 16..32 and
/// bits 0..16.
pub open spec fn spec_split(output: u64) -> Hashes {
    (
        ((output >> 32) & 0xFFFF) as Lane,
        ((output >> 16) & 0xFFFF) as Lane,
        (output & 0xFFFF) as Lane,
    )
}

/// Splits a 64-bit hash into its three lanes.
pub fn split(output: u64) -> (triple: Hashes)
    ensures
        triple == spec_split(output),
{
    assert(((output >> 32) & 0xFFFF) <= 0xFFFF) by (bit_vector);
    assert(((output >> 16) & 0xFFFF) <= 0xFFFF) by (bit_vector);
    assert((output & 0xFFFF) <= 0xFFFF) by (bit_vector);
    (
        ((output >> 32) & 0xFFFF) as Lane,
        ((output >> 16) & 0xFFFF) as Lane,
        (output & 0xFFFF) as Lane,
    )
}

/// The provided hasher: aHash keyed by four 64-bit words.
///
/// Bytes are collected as they are written and hashed in one piece when the
/// result is asked for.
pub struct AHasher {
    seed: (u64, u64, u64, u64),
    buffer: Vec<u8>,
}

impl AHasher {
    /// The 64-bit hash of what has been written so far.
    pub fn finish(&self) -> (output: u64)
        ensures
            output == ahash_output(self.seed(), self.written()),
    {
        ahash_keyed(&self.seed, self.buffer.as_slice())
    }
}

impl Seedable for AHasher {
    type Seed = (u64, u64, u64, u64);

    closed spec fn seed(&self) -> (u64, u64, u64, u64) {
        self.seed
    }

    closed spec fn written(&self) -> Seq<u8> {
        self.buffer@
    }

    fn new_with_seed(seed: &(u64, u64, u64, u64)) -> (hasher: Self) {
        AHasher { seed: *seed, buffer: Vec::new() }
    }

    fn write(&mut self, bytes: &[u8]) {
        let mut i: usize = 0;
        while i < bytes.len()
            invariant
                i <= bytes.len(),
                self.seed == old(self).seed,
                self.buffer@ == old(self).buffer@ + bytes@.subrange(0, i as int),
            decreases bytes.len() - i,
        {
            self.buffer.push(bytes[i]);
            i += 1;
            assert(bytes@.subrange(0, i as int) == bytes@.subrange(0, i - 1).push(bytes@[i - 1]));
        }
        assert(bytes@.subrange(0, i as int) == bytes@);
    }
}

impl ChdHasher for AHasher {
    open spec fn spec_triple(seed: (u64, u64, u64, u64), bytes: Seq<u8>) -> Hashes {
        spec_split(ahash_output(seed, bytes))
    }

    fn finish_triple(&self) -> (triple: Hashes) {
        split(self.finish())
    }
}

/// The hash triple of `key` under `seed`: one keyed-hash evaluation over the
/// key's bytes.
pub fn hash<K: PhfKey, H: ChdHasher>(key: &K, seed: &H::Seed) -> (triple: Hashes)
    ensures
        triple == H::spec_triple(*seed, key.key_bytes()),
{
    let mut hasher = H::new_with_seed(seed);
    let bytes: Vec<u8> = key.to_bytes();
    hasher.write(bytes.as_slice());
    assert(hasher.written() =~= key.key_bytes());
    hasher.finish_triple()
}

} // verus!
