//! The tree: a pseudorandom function on byte strings of a fixed length that
//! can be punctured, one input at a time.
//!
//! An input names a leaf by its bits.  To evaluate it, the tree finds the
//! frontier entry on the leaf's path and applies one directional generator per
//! remaining bit.  To puncture it, the tree replaces that entry by the
//! siblings of the nodes on the path below it, so that every other leaf stays
//! as it was and the punctured one is out of reach for good.

use crate::bits::{
    bv_clone, bv_get, bv_len, bv_set, bv_split_at, bvcast_u8_to_usize, lsb0_bits, max_bits, Bits,
    ByteBits,
};
use crate::frontier::{
    consistent, covered, covers, first_cover, first_match, lemma_node_value_below,
    lemma_puncture_consistent, punctured_frontier, sibling, sibling_entries, TreeSeed,
};
use crate::key::{entries_view, GGMError, GGMPuncturableKey, Prefix};
use crate::prg::{copy_bytes, hashable, hmac_key, hmac_tag, OUTPUT_LEN};
use vstd::prelude::*;
use vstd::slice::slice_to_vec;

verus! {

/// A puncturable pseudorandom function on inputs of `width` bytes.
pub struct GGM {
    inp_len: usize,
    key: GGMPuncturableKey,
    /// The values of the root's two children, as they were at setup.
    roots: Ghost<(Seq<u8>, Seq<u8>)>,
}

impl Clone for GGM {
    /// A second tree in the same state: it evaluates and refuses as this one
    /// does, and a puncture of either leaves the other as it is.
    fn clone(&self) -> (copy: Self)
        ensures
            copy.width() == self.width(),
            copy.seed() == self.seed(),
            copy.frontier() == self.frontier(),
            copy.punctured() == self.punctured(),
            copy.generators_ready() == self.generators_ready(),
            copy.wf() == self.wf(),
    {
        GGM { inp_len: self.inp_len, key: self.key.clone(), roots: Ghost(self.roots@) }
    }
}

impl GGM {
    /// The byte length of every input.
    pub closed spec fn width(&self) -> nat {
        self.inp_len as nat
    }

    /// The depth of the tree: the bit length of every input.
    pub open spec fn depth(&self) -> nat {
        8 * self.width()
    }

    /// The generator keys and root values, which no operation changes.
    pub closed spec fn seed(&self) -> TreeSeed {
        TreeSeed {
            key0: self.key.prg_key(false),
            key1: self.key.prg_key(true),
            root0: self.roots@.0,
            root1: self.roots@.1,
        }
    }

    /// The frontier: paths and values of its entries, in order.
    pub closed spec fn frontier(&self) -> Seq<(Seq<bool>, Seq<u8>)> {
        self.key.frontier()
    }

    /// The leaves punctured so far, oldest first.
    pub closed spec fn punctured(&self) -> Seq<Seq<bool>> {
        self.key.punctured()
    }

    /// Both directional generators are in place.
    pub closed spec fn generators_ready(&self) -> bool {
        self.key.wf()
    }

    /// The invariant of the tree.  Inputs have at least one byte and few
    /// enough for their bits to fit one bit vector; the frontier and the
    /// record of punctures are consistent with the tree that the seed spans;
    /// and every frontier value has the length of a generator output.
    pub open spec fn wf(&self) -> bool {
        &&& self.generators_ready()
        &&& 1 <= self.width()
        &&& 8 * self.width() <= max_bits()
        &&& consistent(self.seed(), self.depth(), self.frontier(), self.punctured())
        &&& forall|i: int|
            0 <= i < self.frontier().len() ==> (#[trigger] self.frontier()[i]).1.len() == OUTPUT_LEN
    }

    /// The value of the function at `input`, punctured or not.
    pub open spec fn output(&self, input: Seq<u8>) -> Seq<u8> {
        self.seed().node_value(lsb0_bits(input))
    }

    /// Whether `input` has been punctured.
    pub open spec fn is_punctured(&self, input: Seq<u8>) -> bool {
        self.punctured().contains(lsb0_bits(input))
    }

    /// What an evaluation at `input` returns.
    pub open spec fn eval_result(&self, input: Seq<u8>) -> Result<Seq<u8>, GGMError> {
        if input.len() != self.width() {
            Err(GGMError::LengthMismatch)
        } else if !covered(self.frontier(), lsb0_bits(input)) {
            Err(GGMError::NoPrefixFound)
        } else {
            Ok(self.output(input))
        }
    }

    /// What a puncture at `input` returns.
    pub open spec fn puncture_result(&self, input: Seq<u8>) -> Result<(), GGMError> {
        if input.len() != self.width() {
            Err(GGMError::LengthMismatch)
        } else if !covered(self.frontier(), lsb0_bits(input)) {
            Err(GGMError::NoPrefixFound)
        } else {
            Ok(())
        }
    }

    /// This tree is what a successful puncture at `input` makes of `pre`: the
    /// same width and seed; the frontier of `pre` without the entry that
    /// covered the input, followed by the siblings along the input's path
    /// below that entry, deepest first; and the record of `pre` with the
    /// input's leaf appended.
    pub open spec fn punctured_from(&self, pre: GGM, input: Seq<u8>) -> bool {
        let x = lsb0_bits(input);
        &&& self.width() == pre.width()
        &&& self.seed() == pre.seed()
        &&& self.generators_ready() == pre.generators_ready()
        &&& exists|c: int|
            covers(pre.frontier(), c, x) && self.frontier() == punctured_frontier(
                pre.seed(),
                pre.frontier(),
                x,
                c,
            )
        &&& self.punctured() == pre.punctured().push(x)
        &&& forall|i: int|
            0 <= i < self.frontier().len() ==> (#[trigger] self.frontier()[i]).1.len() == OUTPUT_LEN
    }

    /// This tree is what `from_secrets` makes of the three secrets: a
    /// well-formed tree on one-byte inputs whose generators are keyed with
    /// `seed0` and `seed1`, whose root children carry the generators' outputs
    /// on `secret` and make up the frontier, and in which nothing is
    /// punctured.
    pub open spec fn built_from(&self, secret: Seq<u8>, seed0: Seq<u8>, seed1: Seq<u8>) -> bool {
        &&& self.wf()
        &&& self.width() == 1
        &&& self.seed() == (TreeSeed {
            key0: hmac_key(seed0),
            key1: hmac_key(seed1),
            root0: hmac_tag(hmac_key(seed0), secret),
            root1: hmac_tag(hmac_key(seed1), secret),
        })
        &&& self.frontier() == seq![(seq![false], self.seed().root0), (seq![true], self.seed().root1)]
        &&& self.punctured() == Seq::<Seq<bool>>::empty()
    }

    /// This tree is the one on one-byte inputs around the fresh key `key`: it
    /// has the key's generators, frontier and record, and its roots are the
    /// values of the key's two frontier entries.
    pub open spec fn around_key(&self, key: GGMPuncturableKey) -> bool {
        &&& self.width() == 1
        &&& self.generators_ready() == key.wf()
        &&& self.seed() == (TreeSeed {
            key0: key.prg_key(false),
            key1: key.prg_key(true),
            root0: key.frontier()[0].1,
            root1: key.frontier()[1].1,
        })
        &&& self.frontier() == key.frontier()
        &&& self.punctured() == key.punctured()
    }

    /// The tree on one-byte inputs built from the given secrets.
    pub fn from_secrets(secret: &[u8], seed0: &[u8], seed1: &[u8]) -> (tree: Self)
        requires
            hashable(secret@.len()),
            hashable(seed0@.len()),
            hashable(seed1@.len()),
        ensures
            tree.built_from(secret@, seed0@, seed1@),
    {
        Self::around(GGMPuncturableKey::from_secrets(secret, seed0, seed1))
    }

    /// The tree on one-byte inputs around a fresh key.
    pub fn around(key: GGMPuncturableKey) -> (tree: Self)
        requires
            key.fresh(),
        ensures
            tree.wf(),
            tree.around_key(key),
    {
        let tree = GGM {
            inp_len: 1,
            roots: Ghost((key.frontier()[0].1, key.frontier()[1].1)),
            key,
        };
        proof {
            assert(tree.frontier() =~= seq![
                (seq![false], tree.seed().root0),
                (seq![true], tree.seed().root1),
            ]);
            lemma_fresh_consistent(tree.seed(), 8);
        }
        tree
    }

    /// The tree on one-byte inputs around the key, where there is one.
    pub fn from_key(key: Option<GGMPuncturableKey>) -> (tree: Option<Self>)
        requires
            key matches Some(k) ==> k.fresh(),
        ensures
            tree is Some <==> key is Some,
            tree matches Some(t) ==> t.wf() && t.around_key(key->0),
    {
        match key {
            Some(key) => Some(Self::around(key)),
            None => None,
        }
    }

    /// A tree on one-byte inputs built from three fresh random secrets of 32
    /// bytes each.  `None` when the operating system's random source fails.
    pub fn setup() -> (tree: Option<Self>)
        ensures
            tree matches Some(t) ==> exists|secret: Seq<u8>, seed0: Seq<u8>, seed1: Seq<u8>|
                secret.len() == OUTPUT_LEN && seed0.len() == OUTPUT_LEN && seed1.len()
                    == OUTPUT_LEN && #[trigger] t.built_from(secret, seed0, seed1),
    {
        let key = GGMPuncturableKey::new();
        let tree = Self::from_key(key);
        proof {
            if key is Some {
                let (secret, seed0, seed1) = choose|
                    secret: Seq<u8>,
                    seed0: Seq<u8>,
                    seed1: Seq<u8>,
                |
                    secret.len() == OUTPUT_LEN && seed0.len() == OUTPUT_LEN && seed1.len()
                        == OUTPUT_LEN && #[trigger] key->0.built_from(secret, seed0, seed1);
                assert(tree->0.built_from(secret, seed0, seed1));
            }
        }
        tree
    }

    /// The byte length that every input must have.
    pub fn input_len(&self) -> (n: usize)
        ensures
            n == self.width(),
    {
        self.inp_len
    }

    /// The number of entries in the frontier.
    pub fn frontier_len(&self) -> (n: usize)
        ensures
            n == self.frontier().len(),
    {
        self.key.frontier_len()
    }

    /// Applies to `prg_inp` one directional generator per bit of `bits`, in
    /// order, and writes the last output to `output`.
    fn bit_eval(&self, bits: &Bits, prg_inp: &[u8], output: &mut [u8])
        requires
            self.generators_ready(),
            prg_inp@.len() == OUTPUT_LEN,
            old(output)@.len() == OUTPUT_LEN,
        ensures
            final(output)@ == self.seed().expand(prg_inp@, bits@),
            final(output)@.len() == OUTPUT_LEN,
    {
        let mut eval = slice_to_vec(prg_inp);
        let n = bv_len(bits);
        let mut i: usize = 0;
        while i < n
            invariant
                self.generators_ready(),
                n == bits@.len(),
                i <= n,
                eval@.len() == OUTPUT_LEN,
                eval@ == self.seed().expand(prg_inp@, bits@.subrange(0, i as int)),
            decreases n - i,
        {
            let prg = self.key.prg(bv_get(bits, i));
            let input = slice_to_vec(eval.as_slice());
            prg.eval(input.as_slice(), eval.as_mut_slice());
            proof {
                let path = bits@.subrange(0, i + 1);
                assert(path.drop_last() =~= bits@.subrange(0, i as int));
                assert(path.last() == bits@[i as int]);
            }
            i = i + 1;
        }
        assert(bits@.subrange(0, n as int) =~= bits@);
        copy_bytes(output, eval.as_slice());
    }

    /// Evaluates the node at `input_bits` from the frontier entry on its
    /// path, if there is one.
    fn partial_eval(&self, input_bits: &Bits, output: &mut [u8]) -> (done: Result<(), GGMError>)
        requires
            self.wf(),
            covered(self.frontier(), input_bits@) ==> old(output)@.len() == OUTPUT_LEN,
        ensures
            match done {
                Ok(()) => covered(self.frontier(), input_bits@) && final(output)@
                    == self.seed().node_value(input_bits@),
                Err(e) => e == GGMError::NoPrefixFound && !covered(self.frontier(), input_bits@)
                    && final(output)@ == old(output)@,
            },
            final(output)@.len() == old(output)@.len(),
    {
        match self.key.find_prefix(input_bits) {
            Ok(pfx) => {
                let ghost c = choose|i: int|
                    first_cover(self.frontier(), i, input_bits@) && self.frontier()[i] == (
                        pfx.0@,
                        pfx.1@,
                    );
                assert(covers(self.frontier(), c, input_bits@));
                let (_, right) = bv_split_at(input_bits, pfx.0.len());
                self.bit_eval(&right, pfx.1.as_slice(), output);
                proof {
                    lemma_node_value_below(self.seed(), pfx.0@, input_bits@);
                }
                Ok(())
            },
            Err(_) => Err(GGMError::NoPrefixFound),
        }
    }

    /// Writes the value of the function at `input` to `output`.
    ///
    /// Refused as `LengthMismatch` when the input has another length than the
    /// tree's, and as `NoPrefixFound` when no frontier entry lies on its path,
    /// which is so exactly when the input has been punctured.  A refused call
    /// leaves `output` as it was, whatever its length; an input that is
    /// evaluated needs a buffer of 32 bytes.
    pub fn eval(&self, input: &[u8], output: &mut [u8]) -> (done: Result<(), GGMError>)
        requires
            self.wf(),
            self.eval_result(input@) is Ok ==> old(output)@.len() == OUTPUT_LEN,
        ensures
            match done {
                Ok(()) => self.eval_result(input@) == Ok::<Seq<u8>, GGMError>(final(output)@),
                Err(e) => self.eval_result(input@) == Err::<Seq<u8>, GGMError>(e)
                    && final(output)@ == old(output)@,
            },
            final(output)@.len() == old(output)@.len(),
    {
        if input.len() != self.inp_len {
            return Err(GGMError::LengthMismatch);
        }
        // An input of the tree's length always fits one bit vector.
        let input_bits = match ByteBits::from_slice(input) {
            Some(bits) => bvcast_u8_to_usize(&bits),
            None => { return Err(GGMError::LengthMismatch); },
        };
        self.partial_eval(&input_bits, output)
    }

    /// Punctures the function at `input`: from now on neither an evaluation
    /// nor a puncture at `input` succeeds, and every other input evaluates as
    /// before.
    ///
    /// Refused as `LengthMismatch` when the input has another length than the
    /// tree's, and as `NoPrefixFound` when no frontier entry lies on its path,
    /// which is so exactly when the input has been punctured before.  A
    /// refused call changes nothing.
    pub fn puncture(&mut self, input: &[u8]) -> (done: Result<(), GGMError>)
        requires
            old(self).wf(),
        ensures
            final(self).wf(),
            done == old(self).puncture_result(input@),
            done is Ok ==> final(self).punctured_from(*old(self), input@),
            done is Err ==> *final(self) == *old(self),
    {
        if input.len() != self.inp_len {
            return Err(GGMError::LengthMismatch);
        }
        // An input of the tree's length always fits one bit vector.
        let bv = match ByteBits::from_slice(input) {
            Some(bits) => bvcast_u8_to_usize(&bits),
            None => { return Err(GGMError::LengthMismatch); },
        };
        let ghost x = bv@;
        let ghost seed = self.seed();
        let ghost fr = self.frontier();
        let pfx = match self.key.find_prefix(&bv) {
            Ok(pfx) => pfx,
            Err(_) => { return Err(GGMError::NoPrefixFound); },
        };
        let ghost c = choose|i: int|
            first_cover(fr, i, x) && fr[i] == (pfx.0@, pfx.1@);
        let pfx_len = pfx.0.len();
        let n = bv_len(&bv);
        assert(covers(fr, c, x));

        // Below the covering entry, every node on the path of the input gives
        // way to its sibling.  With the entry at the leaf itself there is none.
        let mut new_pfxs: Vec<(Prefix, Vec<u8>)> = Vec::new();
        let mut iter_bv = bv_clone(&bv);
        let mut i: usize = n;
        assert(x.subrange(0, n as int) =~= x);
        while i > pfx_len
            invariant
                self.wf(),
                seed == self.seed(),
                pfx_len == pfx.0@.len(),
                pfx.1@.len() == OUTPUT_LEN,
                n == x.len(),
                pfx_len <= i <= n,
                iter_bv@ == x.subrange(0, i as int),
                new_pfxs@.len() == n - i,
                forall|j: int|
                    0 <= j < n - i ==> entries_view(new_pfxs@)[j] == #[trigger] sibling_entries(
                        seed,
                        x,
                        pfx_len as int,
                        pfx.1@,
                    )[j],
                forall|j: int| 0 <= j < n - i ==> (#[trigger] new_pfxs@[j]).1@.len() == OUTPUT_LEN,
            decreases i,
        {
            i = i - 1;
            let last = bv_get(&iter_bv, i);
            let (rest, _) = bv_split_at(&iter_bv, i);
            let mut cbv = iter_bv;
            bv_set(&mut cbv, i, !last);
            assert(cbv@ =~= sibling(x, i as int));
            let (_, split) = bv_split_at(&cbv, pfx_len);
            let mut out = vec![0u8; 32];
            self.bit_eval(&split, pfx.1.as_slice(), out.as_mut_slice());
            let ghost done_before = new_pfxs@;
            new_pfxs.push((Prefix::new(cbv), out));
            iter_bv = rest;
            proof {
                let k = n - 1 - i;
                assert(x.subrange(0, i + 1).subrange(0, i as int) =~= x.subrange(0, i as int));
                assert forall|j: int| 0 <= j < n - i implies entries_view(new_pfxs@)[j]
                    == #[trigger] sibling_entries(seed, x, pfx_len as int, pfx.1@)[j] by {
                    if j < k {
                        assert(new_pfxs@[j] == done_before[j]);
                        assert(entries_view(new_pfxs@)[j] == entries_view(done_before)[j]);
                    } else {
                        assert(x.len() - 1 - j == i);
                    }
                }
                assert forall|j: int| 0 <= j < n - i implies (#[trigger] new_pfxs@[j]).1@.len()
                    == OUTPUT_LEN by {
                    if j < k {
                        assert(new_pfxs@[j] == done_before[j]);
                    }
                }
            }
        }
        let ghost siblings = sibling_entries(seed, x, pfx_len as int, pfx.1@);
        assert(entries_view(new_pfxs@) =~= siblings);
        proof {
            lemma_entry_not_on_record(seed, self.depth(), fr, self.punctured(), c);
        }
        let to_punc = Prefix::new(bv);
        match self.key.puncture(&pfx.0, &to_punc, new_pfxs) {
            Ok(()) => {
                proof {
                    let m = choose|m: int|
                        first_match(fr, m, pfx.0@) && self.frontier() == fr.remove(m)
                            + entries_view(new_pfxs@);
                    if m != c {
                        assert(fr[m].0.is_prefix_of(fr[c].0));
                    }
                    assert(self.frontier() == punctured_frontier(seed, fr, x, c));
                    lemma_puncture_consistent(
                        seed,
                        self.depth(),
                        fr,
                        old(self).punctured(),
                        x,
                        c,
                    );
                    assert forall|k: int| 0 <= k < self.frontier().len() implies (
                    #[trigger] self.frontier()[k]).1.len() == OUTPUT_LEN by {
                        if k < c {
                            assert(self.frontier()[k] == fr[k]);
                        } else if k < fr.len() - 1 {
                            assert(self.frontier()[k] == fr[k + 1]);
                        } else {
                            let j = k - (fr.len() - 1);
                            assert(self.frontier()[k] == entries_view(new_pfxs@)[j]);
                            assert(entries_view(new_pfxs@)[j].1 == new_pfxs@[j].1@);
                        }
                    }
                }
                Ok(())
            },
            // The covering entry is in the frontier and not on record, so
            // the key never refuses.
            Err(e) => Err(e),
        }
    }
}

/// The frontier of a fresh tree, which holds the root's two children, is
/// consistent with the tree and an empty record.
pub proof fn lemma_fresh_consistent(seed: TreeSeed, n: nat)
    requires
        n >= 1,
    ensures
        consistent(
            seed,
            n,
            seq![(seq![false], seed.root0), (seq![true], seed.root1)],
            Seq::<Seq<bool>>::empty(),
        ),
{
    let fr = seq![(seq![false], seed.root0), (seq![true], seed.root1)];
    let pu = Seq::<Seq<bool>>::empty();
    assert(seq![false].subrange(1, 1) =~= Seq::<bool>::empty());
    assert(seq![true].subrange(1, 1) =~= Seq::<bool>::empty());
    assert(!seq![false].is_prefix_of(seq![true])) by {
        if seq![false].is_prefix_of(seq![true]) {
            assert(seq![false][0] == seq![true].subrange(0, 1)[0]);
        }
    }
    assert(!seq![true].is_prefix_of(seq![false])) by {
        if seq![true].is_prefix_of(seq![false]) {
            assert(seq![true][0] == seq![false].subrange(0, 1)[0]);
        }
    }
    assert forall|leaf: Seq<bool>| leaf.len() == n implies (covered(fr, leaf) <==> !pu.contains(
        leaf,
    )) by {
        if leaf[0] {
            assert(seq![true] =~= leaf.subrange(0, 1));
            assert(covers(fr, 1, leaf));
        } else {
            assert(seq![false] =~= leaf.subrange(0, 1));
            assert(covers(fr, 0, leaf));
        }
    }
}

/// The path of a frontier entry is not on the record of punctures.
pub proof fn lemma_entry_not_on_record(
    seed: TreeSeed,
    n: nat,
    fr: Seq<(Seq<bool>, Seq<u8>)>,
    pu: Seq<Seq<bool>>,
    c: int,
)
    requires
        consistent(seed, n, fr, pu),
        0 <= c < fr.len(),
    ensures
        !pu.contains(fr[c].0),
{
    let p = fr[c].0;
    if pu.contains(p) {
        let j = choose|j: int| 0 <= j < pu.len() && pu[j] == p;
        assert(pu[j].len() == n);
        assert(p =~= p.subrange(0, p.len() as int));
        assert(covers(fr, c, p));
        assert(covered(fr, p));
    }
}

} // verus!
