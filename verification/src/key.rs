//! The puncturable key: the two directional generators, the frontier, and the
//! record of punctured leaves.

use crate::bits::{bv_clone, bv_eq, bv_len, bv_push, bv_starts_with, bv_with_capacity, Bits};
use crate::frontier::{covered, covers, first_cover, first_match};
use crate::prg::{
    hashable, hmac_key, hmac_tag, sample_secret, GGMPseudorandomGenerator, OUTPUT_LEN,
};
use vstd::prelude::*;
use vstd::slice::slice_to_vec;

verus! {

/// Why an evaluation or a puncture was refused.
#[derive(Debug, Clone, Copy, PartialEq, Eq, Structural)]
pub enum GGMError {
    /// The input does not have the byte length that the tree was set up with.
    LengthMismatch,
    /// No frontier entry lies on the path of the input.
    NoPrefixFound,
    /// The puncture asked for is already on record.
    AlreadyPunctured,
}

/// The path of a tree node, from the root down.
#[derive(Debug)]
pub struct Prefix {
    bits: Bits,
}

impl View for Prefix {
    type V = Seq<bool>;

    closed spec fn view(&self) -> Seq<bool> {
        self.bits@
    }
}

impl Clone for Prefix {
    fn clone(&self) -> (copy: Self)
        ensures
            copy@ == self@,
    {
        Prefix { bits: bv_clone(&self.bits) }
    }
}

impl Prefix {
    pub fn new(bits: Bits) -> (prefix: Self)
        ensures
            prefix@ == bits@,
    {
        Prefix { bits }
    }

    pub fn len(&self) -> (n: usize)
        ensures
            n == self@.len(),
    {
        bv_len(&self.bits)
    }

    /// The bits of the path.
    pub fn bits(&self) -> (bits: &Bits)
        ensures
            bits@ == self@,
    {
        &self.bits
    }

    /// Whether two prefixes name the same node.
    pub fn same_path(&self, other: &Prefix) -> (same: bool)
        ensures
            same == (self@ == other@),
    {
        bv_eq(&self.bits, &other.bits)
    }

    /// Whether this prefix lies on the path `bits`.
    pub fn is_prefix_of(&self, bits: &Bits) -> (yes: bool)
        ensures
            yes == self@.is_prefix_of(bits@),
    {
        bv_starts_with(bits, &self.bits)
    }
}

/// What a list of frontier entries stands for: each entry's path and value.
pub open spec fn entries_view(entries: Seq<(Prefix, Vec<u8>)>) -> Seq<(Seq<bool>, Seq<u8>)> {
    entries.map_values(|e: (Prefix, Vec<u8>)| (e.0@, e.1@))
}

/// What a list of prefixes stands for: each one's path.
pub open spec fn paths_view(prefixes: Seq<Prefix>) -> Seq<Seq<bool>> {
    prefixes.map_values(|p: Prefix| p@)
}

/// The prefix of one bit.
fn single_bit(bit: bool) -> (prefix: Prefix)
    ensures
        prefix@ == seq![bit],
{
    let mut bits = bv_with_capacity(1);
    bv_push(&mut bits, bit);
    assert(Seq::<bool>::empty().push(bit) =~= seq![bit]);
    Prefix::new(bits)
}

/// The two generators, the frontier and the record of punctured leaves.
pub struct GGMPuncturableKey {
    prgs: Vec<GGMPseudorandomGenerator>,
    prefixes: Vec<(Prefix, Vec<u8>)>,
    punctured: Vec<Prefix>,
}

impl Clone for GGMPuncturableKey {
    /// A second key with the same generators, frontier and record.
    fn clone(&self) -> (copy: Self)
        ensures
            copy.wf() == self.wf(),
            copy.prg_key(false) == self.prg_key(false),
            copy.prg_key(true) == self.prg_key(true),
            copy.frontier() == self.frontier(),
            copy.punctured() == self.punctured(),
    {
        let mut prgs: Vec<GGMPseudorandomGenerator> = Vec::with_capacity(self.prgs.len());
        let mut i: usize = 0;
        while i < self.prgs.len()
            invariant
                i <= self.prgs@.len(),
                prgs@ == self.prgs@.subrange(0, i as int),
            decreases self.prgs@.len() - i,
        {
            prgs.push(self.prgs[i].clone());
            assert(prgs@ =~= self.prgs@.subrange(0, i + 1));
            i = i + 1;
        }
        assert(prgs@ =~= self.prgs@);
        let mut prefixes: Vec<(Prefix, Vec<u8>)> = Vec::with_capacity(self.prefixes.len());
        let mut j: usize = 0;
        while j < self.prefixes.len()
            invariant
                j <= self.prefixes@.len(),
                prefixes@.len() == j,
                forall|t: int|
                    0 <= t < j ==> (#[trigger] prefixes@[t]).0@ == self.prefixes@[t].0@
                        && prefixes@[t].1@ == self.prefixes@[t].1@,
            decreases self.prefixes@.len() - j,
        {
            let prefix = self.prefixes[j].0.clone();
            let value = slice_to_vec(self.prefixes[j].1.as_slice());
            prefixes.push((prefix, value));
            j = j + 1;
        }
        assert(entries_view(prefixes@) =~= entries_view(self.prefixes@));
        let mut punctured: Vec<Prefix> = Vec::with_capacity(self.punctured.len());
        let mut k: usize = 0;
        while k < self.punctured.len()
            invariant
                k <= self.punctured@.len(),
                punctured@.len() == k,
                forall|t: int| 0 <= t < k ==> (#[trigger] punctured@[t])@ == self.punctured@[t]@,
            decreases self.punctured@.len() - k,
        {
            punctured.push(self.punctured[k].clone());
            k = k + 1;
        }
        assert(paths_view(punctured@) =~= paths_view(self.punctured@));
        GGMPuncturableKey { prgs, prefixes, punctured }
    }
}

impl GGMPuncturableKey {
    /// Both directional generators are in place.
    pub closed spec fn wf(&self) -> bool {
        self.prgs@.len() == 2
    }

    /// The key of the generator used where the next bit of a path is `bit`.
    pub closed spec fn prg_key(&self, bit: bool) -> ring::hmac::Key {
        self.prgs@[if bit {
            1int
        } else {
            0int
        }].key()
    }

    /// The frontier: paths and values of its entries, in order.
    pub closed spec fn frontier(&self) -> Seq<(Seq<bool>, Seq<u8>)> {
        entries_view(self.prefixes@)
    }

    /// The record of punctures, oldest first.
    pub closed spec fn punctured(&self) -> Seq<Seq<bool>> {
        paths_view(self.punctured@)
    }

    /// This key is what `from_secrets` makes of the three secrets: the
    /// generators are keyed with `seed0` and `seed1`; the frontier holds the
    /// root's two children, each with the output of its generator on
    /// `secret`; and nothing is on record.
    pub open spec fn built_from(&self, secret: Seq<u8>, seed0: Seq<u8>, seed1: Seq<u8>) -> bool {
        &&& self.wf()
        &&& self.prg_key(false) == hmac_key(seed0)
        &&& self.prg_key(true) == hmac_key(seed1)
        &&& self.frontier() == seq![
            (seq![false], hmac_tag(hmac_key(seed0), secret)),
            (seq![true], hmac_tag(hmac_key(seed1), secret)),
        ]
        &&& self.frontier()[0].1.len() == OUTPUT_LEN
        &&& self.frontier()[1].1.len() == OUTPUT_LEN
        &&& self.punctured() == Seq::<Seq<bool>>::empty()
    }

    /// This key is as a constructor leaves it: both generators in place, the
    /// root's two children as the frontier, each with a value of 32 bytes, and
    /// nothing on record.
    pub open spec fn fresh(&self) -> bool {
        &&& self.wf()
        &&& self.frontier().len() == 2
        &&& self.frontier()[0].0 == seq![false]
        &&& self.frontier()[1].0 == seq![true]
        &&& self.frontier()[0].1.len() == OUTPUT_LEN
        &&& self.frontier()[1].1.len() == OUTPUT_LEN
        &&& self.punctured() == Seq::<Seq<bool>>::empty()
    }

    /// The key whose generators are keyed with `seed0` and `seed1`, and whose
    /// frontier holds the root's two children, each with the value that its
    /// generator gives on `secret`.
    pub fn from_secrets(secret: &[u8], seed0: &[u8], seed1: &[u8]) -> (key: Self)
        requires
            hashable(secret@.len()),
            hashable(seed0@.len()),
            hashable(seed1@.len()),
        ensures
            key.built_from(secret@, seed0@, seed1@),
    {
        let prg0 = GGMPseudorandomGenerator::from_secret(seed0);
        let mut out0 = vec![0u8; 32];
        prg0.eval(secret, out0.as_mut_slice());
        let prg1 = GGMPseudorandomGenerator::from_secret(seed1);
        let mut out1 = vec![0u8; 32];
        prg1.eval(secret, out1.as_mut_slice());
        let mut prgs: Vec<GGMPseudorandomGenerator> = Vec::with_capacity(2);
        prgs.push(prg0);
        prgs.push(prg1);
        let mut prefixes: Vec<(Prefix, Vec<u8>)> = Vec::with_capacity(2);
        prefixes.push((single_bit(false), out0));
        prefixes.push((single_bit(true), out1));
        let key = GGMPuncturableKey { prgs, prefixes, punctured: Vec::new() };
        assert(key.frontier() =~= seq![
            (seq![false], hmac_tag(hmac_key(seed0@), secret@)),
            (seq![true], hmac_tag(hmac_key(seed1@), secret@)),
        ]);
        assert(key.punctured() =~= Seq::<Seq<bool>>::empty());
        key
    }

    /// The key built from the three samples, where none of them is missing.
    pub fn from_samples(
        secret: Option<Vec<u8>>,
        seed0: Option<Vec<u8>>,
        seed1: Option<Vec<u8>>,
    ) -> (key: Option<Self>)
        requires
            secret matches Some(s) ==> hashable(s@.len()),
            seed0 matches Some(s) ==> hashable(s@.len()),
            seed1 matches Some(s) ==> hashable(s@.len()),
        ensures
            key is Some <==> secret is Some && seed0 is Some && seed1 is Some,
            key matches Some(k) ==> k.built_from(secret->0@, seed0->0@, seed1->0@),
    {
        match (secret, seed0, seed1) {
            (Some(secret), Some(seed0), Some(seed1)) => Some(
                Self::from_secrets(secret.as_slice(), seed0.as_slice(), seed1.as_slice()),
            ),
            _ => None,
        }
    }

    /// A key built from three fresh random secrets of 32 bytes each.  `None`
    /// when the operating system's random source fails.
    pub fn new() -> (key: Option<Self>)
        ensures
            key matches Some(k) ==> exists|secret: Seq<u8>, seed0: Seq<u8>, seed1: Seq<u8>|
                secret.len() == OUTPUT_LEN && seed0.len() == OUTPUT_LEN && seed1.len()
                    == OUTPUT_LEN && #[trigger] k.built_from(secret, seed0, seed1),
    {
        let secret = sample_secret();
        let seed0 = sample_secret();
        let seed1 = sample_secret();
        Self::from_samples(secret, seed0, seed1)
    }

    /// The number of entries in the frontier.
    pub fn frontier_len(&self) -> (n: usize)
        ensures
            n == self.frontier().len(),
    {
        self.prefixes.len()
    }

    /// The generator for `bit`.
    pub fn prg(&self, bit: bool) -> (prg: &GGMPseudorandomGenerator)
        requires
            self.wf(),
        ensures
            prg.key() == self.prg_key(bit),
    {
        if bit {
            &self.prgs[1]
        } else {
            &self.prgs[0]
        }
    }

    /// The first frontier entry that lies on the path `bv`.
    pub fn find_prefix(&self, bv: &Bits) -> (found: Result<(Prefix, Vec<u8>), GGMError>)
        ensures
            match found {
                Ok(entry) => exists|i: int|
                    first_cover(self.frontier(), i, bv@) && self.frontier()[i] == (
                        entry.0@,
                        entry.1@,
                    ),
                Err(e) => e == GGMError::NoPrefixFound && !covered(self.frontier(), bv@),
            },
    {
        let n = self.prefixes.len();
        let mut i: usize = 0;
        while i < n
            invariant
                n == self.prefixes@.len(),
                i <= n,
                forall|j: int| 0 <= j < i ==> !covers(self.frontier(), j, bv@),
            decreases n - i,
        {
            if self.prefixes[i].0.is_prefix_of(bv) {
                let prefix = self.prefixes[i].0.clone();
                let value = slice_to_vec(self.prefixes[i].1.as_slice());
                assert(first_cover(self.frontier(), i as int, bv@));
                return Ok((prefix, value));
            }
            i = i + 1;
        }
        Err(GGMError::NoPrefixFound)
    }

    /// Whether `pfx` is on record as punctured.
    fn on_record(&self, pfx: &Prefix) -> (yes: bool)
        ensures
            yes == self.punctured().contains(pfx@),
    {
        let m = self.punctured.len();
        let mut j: usize = 0;
        while j < m
            invariant
                m == self.punctured@.len(),
                j <= m,
                forall|k: int| 0 <= k < j ==> self.punctured()[k] != pfx@,
            decreases m - j,
        {
            if self.punctured[j].same_path(pfx) {
                assert(self.punctured()[j as int] == pfx@);
                return true;
            }
            j = j + 1;
        }
        false
    }

    /// The index of the first frontier entry whose path is `pfx`, or the
    /// length of the frontier when there is none.
    fn position(&self, pfx: &Prefix) -> (i: usize)
        ensures
            i <= self.frontier().len(),
            i < self.frontier().len() ==> first_match(self.frontier(), i as int, pfx@),
            forall|k: int| 0 <= k < i ==> self.frontier()[k].0 != pfx@,
    {
        let n = self.prefixes.len();
        let mut i: usize = 0;
        while i < n
            invariant
                n == self.prefixes@.len(),
                i <= n,
                forall|k: int| 0 <= k < i ==> self.frontier()[k].0 != pfx@,
            decreases n - i,
        {
            if self.prefixes[i].0.same_path(pfx) {
                return i;
            }
            i = i + 1;
        }
        n
    }

    /// Replaces the frontier entry at `pfx` by `new_prefixes` and records
    /// `to_punc`.
    ///
    /// Refused as `AlreadyPunctured` when `pfx` is on record as punctured, and
    /// else as `NoPrefixFound` when no frontier entry has the path `pfx`; a
    /// refused call changes nothing.  Otherwise the first entry at `pfx`
    /// leaves the frontier, the new entries are appended in their order, and
    /// `to_punc` is appended to the record.
    pub fn puncture(
        &mut self,
        pfx: &Prefix,
        to_punc: &Prefix,
        new_prefixes: Vec<(Prefix, Vec<u8>)>,
    ) -> (done: Result<(), GGMError>)
        ensures
            final(self).wf() == old(self).wf(),
            final(self).prg_key(false) == old(self).prg_key(false),
            final(self).prg_key(true) == old(self).prg_key(true),
            match done {
                Ok(()) => {
                    &&& !old(self).punctured().contains(pfx@)
                    &&& exists|i: int|
                        first_match(old(self).frontier(), i, pfx@) && final(self).frontier()
                            == old(self).frontier().remove(i) + entries_view(new_prefixes@)
                    &&& final(self).punctured() == old(self).punctured().push(to_punc@)
                },
                Err(GGMError::AlreadyPunctured) => {
                    &&& old(self).punctured().contains(pfx@)
                    &&& *final(self) == *old(self)
                },
                Err(GGMError::NoPrefixFound) => {
                    &&& !old(self).punctured().contains(pfx@)
                    &&& forall|i: int|
                        0 <= i < old(self).frontier().len() ==> old(self).frontier()[i].0 != pfx@
                    &&& *final(self) == *old(self)
                },
                Err(GGMError::LengthMismatch) => false,
            },
    {
        if self.on_record(pfx) {
            return Err(GGMError::AlreadyPunctured);
        }
        let n = self.prefixes.len();
        let i = self.position(pfx);
        if i < n {
            let ghost before = self.prefixes@;
            let ghost record = self.punctured@;
            assert(first_match(old(self).frontier(), i as int, pfx@));
            self.prefixes.remove(i);
            let mut fresh = new_prefixes;
            self.prefixes.append(&mut fresh);
            self.punctured.push(to_punc.clone());
            assert(self.frontier() =~= entries_view(before).remove(i as int) + entries_view(
                new_prefixes@,
            ));
            assert(self.punctured() =~= paths_view(record).push(to_punc@));
            Ok(())
        } else {
            Err(GGMError::NoPrefixFound)
        }
    }
}

} // verus!
