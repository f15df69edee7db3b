//! The pseudorandom generator: HMAC-SHA-256 under a fixed key.
//!
//! The keyed hash itself is `ring`'s.  Verus sees a key as an opaque value and
//! the hash as a function of the key and the message; the functions here that
//! call into `ring` are trusted to compute exactly that function.

use vstd::prelude::*;

verus! {

/// Number of bytes in every generator output.
pub const OUTPUT_LEN: usize = 32;

/// An HMAC key as `ring` holds it.
#[verifier::external_type_specification]
#[verifier::external_body]
pub struct ExHmacKey(ring::hmac::Key);

/// The HMAC-SHA-256 key that `ring` derives from the given key bytes.
pub uninterp spec fn hmac_key(secret: Seq<u8>) -> ring::hmac::Key;

/// What `ring` returns as the tag of `data` under `key`, by the algorithm
/// that the key was made for.
pub uninterp spec fn hmac_tag(key: ring::hmac::Key, data: Seq<u8>) -> Seq<u8>;

/// Whether `key` is an HMAC-SHA-256 key: the one made from some key bytes.
pub open spec fn is_sha256_key(key: ring::hmac::Key) -> bool {
    exists|secret: Seq<u8>| key == #[trigger] hmac_key(secret)
}

/// Whether a message of `len` bytes is short enough to be hashed: the hash
/// counts its input in bits, in 64 bits, and HMAC puts one block of 64 bytes
/// in front of the message.
pub open spec fn hashable(len: nat) -> bool {
    len + 64 < 0x2000_0000_0000_0000
}

/// `ring::hmac::Key::new` with `HMAC_SHA256`: the key for the given key bytes.
/// Key bytes longer than a block are hashed first, which panics on an input
/// whose length in bits does not fit the hash's counter.
#[verifier::external_body]
fn hmac_new_key(secret: &[u8]) -> (key: ring::hmac::Key)
    requires
        hashable(secret@.len()),
    ensures
        key == hmac_key(secret@),
{
    ring::hmac::Key::new(ring::hmac::HMAC_SHA256, secret)
}

/// `ring::hmac::sign`: the tag of `data` under `key`.  A tag has the output
/// length of the key's algorithm, which is 32 bytes for the SHA-256 keys that
/// this wrapper is for.  The call panics on a message whose length in bits,
/// with the key block of 64 bytes in front, does not fit the hash's counter.
#[verifier::external_body]
fn hmac_sign(key: &ring::hmac::Key, data: &[u8]) -> (tag: Vec<u8>)
    requires
        is_sha256_key(*key),
        hashable(data@.len()),
    ensures
        tag@ == hmac_tag(*key, data@),
        tag@.len() == 32,
{
    ring::hmac::sign(key, data).as_ref().to_vec()
}

/// `Clone::clone` on a `ring::hmac::Key`: the same key.
#[verifier::external_body]
fn hmac_clone_key(key: &ring::hmac::Key) -> (copy: ring::hmac::Key)
    ensures
        copy == *key,
{
    key.clone()
}

/// `SecureRandom::fill` on a `ring::rand::SystemRandom`: overwrites the buffer
/// with bytes from the operating system, or reports that it could not.  The
/// buffer keeps its length either way.
#[verifier::external_body]
fn system_random_fill(buf: &mut Vec<u8>) -> (filled: bool)
    ensures
        final(buf)@.len() == old(buf)@.len(),
{
    ring::rand::SecureRandom::fill(&ring::rand::SystemRandom::new(), buf.as_mut_slice()).is_ok()
}

/// Overwrites `dst` with the bytes of `src`.
pub fn copy_bytes(dst: &mut [u8], src: &[u8])
    requires
        old(dst)@.len() == src@.len(),
    ensures
        final(dst)@ == src@,
{
    let n = src.len();
    let mut i: usize = 0;
    while i < n
        invariant
            n == src@.len(),
            dst@.len() == n,
            i <= n,
            forall|j: int| 0 <= j < i ==> dst@[j] == src@[j],
        decreases n - i,
    {
        dst[i] = src[i];
        i = i + 1;
    }
    assert(dst@ =~= src@);
}

/// What a draw from the random source yields: the buffer where the source
/// filled it, nothing where the source failed.
pub fn secret_of_fill(filled: bool, buf: Vec<u8>) -> (secret: Option<Vec<u8>>)
    ensures
        secret == (if filled {
            Some(buf)
        } else {
            None
        }),
{
    if filled {
        Some(buf)
    } else {
        None
    }
}

/// Draws 32 bytes from the operating system's random source.  `None` when the
/// source fails.
pub fn sample_secret() -> (secret: Option<Vec<u8>>)
    ensures
        secret matches Some(s) ==> s@.len() == OUTPUT_LEN,
{
    let mut out = vec![0u8; 32];
    let filled = system_random_fill(&mut out);
    secret_of_fill(filled, out)
}

/// A keyed, deterministic generator of 32-byte outputs.
pub struct GGMPseudorandomGenerator {
    key: ring::hmac::Key,
}

impl Clone for GGMPseudorandomGenerator {
    fn clone(&self) -> (copy: Self)
        ensures
            copy == *self,
    {
        proof {
            use_type_invariant(self);
        }
        GGMPseudorandomGenerator { key: hmac_clone_key(&self.key) }
    }
}

impl GGMPseudorandomGenerator {
    /// A generator only ever holds an HMAC-SHA-256 key.
    #[verifier::type_invariant]
    closed spec fn keyed_for_sha256(&self) -> bool {
        is_sha256_key(self.key)
    }

    /// The key that the generator hashes under.
    pub closed spec fn key(&self) -> ring::hmac::Key {
        self.key
    }

    /// What the generator returns on `input`.
    pub open spec fn output(&self, input: Seq<u8>) -> Seq<u8> {
        hmac_tag(self.key(), input)
    }

    /// The generator keyed with the given bytes.
    pub fn from_secret(secret: &[u8]) -> (prg: Self)
        requires
            hashable(secret@.len()),
        ensures
            prg.key() == hmac_key(secret@),
    {
        GGMPseudorandomGenerator { key: hmac_new_key(secret) }
    }

    /// The generator keyed with the sampled bytes, where there are any.
    pub fn from_sample(sample: Option<Vec<u8>>) -> (prg: Option<Self>)
        requires
            sample matches Some(s) ==> hashable(s@.len()),
        ensures
            prg is Some <==> sample is Some,
            prg matches Some(p) ==> p.key() == hmac_key(sample->0@),
    {
        match sample {
            Some(secret) => Some(Self::from_secret(secret.as_slice())),
            None => None,
        }
    }

    /// A generator keyed with 32 fresh random bytes.  `None` when the
    /// operating system's random source fails.
    pub fn setup() -> (prg: Option<Self>)
        ensures
            prg matches Some(p) ==> exists|secret: Seq<u8>|
                secret.len() == OUTPUT_LEN && p.key() == #[trigger] hmac_key(secret),
    {
        Self::from_sample(sample_secret())
    }

    /// Writes the generator's output on `input` to `output`.
    pub fn eval(&self, input: &[u8], output: &mut [u8])
        requires
            hashable(input@.len()),
            old(output)@.len() == OUTPUT_LEN,
        ensures
            final(output)@ == self.output(input@),
            final(output)@.len() == OUTPUT_LEN,
    {
        proof {
            use_type_invariant(self);
        }
        let tag = hmac_sign(&self.key, input);
        copy_bytes(output, tag.as_slice());
    }
}

} // verus!
