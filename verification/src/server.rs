//! The state behind a randomness-server handle: one puncturable function
//! whose inputs are metadata tags of a single byte.

use crate::ggm::GGM;
use crate::key::GGMError;
use crate::prg::{hashable, OUTPUT_LEN};
use vstd::prelude::*;

verus! {

/// A server that derives one 32-byte value per metadata tag and can retire
/// tags one by one.
pub struct RandomnessServer {
    inner: GGM,
}

impl RandomnessServer {
    /// The tree that the server evaluates and punctures.
    pub closed spec fn tree(&self) -> GGM {
        self.inner
    }

    /// The server's tree is well-formed and takes inputs of one byte.
    pub open spec fn wf(&self) -> bool {
        self.tree().wf() && self.tree().width() == 1
    }

    /// The server over the tree, where there is one.
    pub fn from_tree(tree: Option<GGM>) -> (server: Option<Self>)
        requires
            tree matches Some(t) ==> t.wf() && t.width() == 1,
        ensures
            server is Some <==> tree is Some,
            server matches Some(s) ==> s.wf() && s.tree() == tree->0,
    {
        match tree {
            Some(inner) => Some(RandomnessServer { inner }),
            None => None,
        }
    }

    /// A server whose tree is built from three fresh random secrets of 32
    /// bytes each, with every tag live.  `None` when the operating system's
    /// random source fails.
    pub fn new() -> (server: Option<Self>)
        ensures
            server matches Some(s) ==> exists|secret: Seq<u8>, seed0: Seq<u8>, seed1: Seq<u8>|
                secret.len() == OUTPUT_LEN && seed0.len() == OUTPUT_LEN && seed1.len()
                    == OUTPUT_LEN && #[trigger] s.tree().built_from(secret, seed0, seed1),
    {
        let tree = GGM::setup();
        let server = Self::from_tree(tree);
        proof {
            if tree is Some {
                let (secret, seed0, seed1) = choose|
                    secret: Seq<u8>,
                    seed0: Seq<u8>,
                    seed1: Seq<u8>,
                |
                    secret.len() == OUTPUT_LEN && seed0.len() == OUTPUT_LEN && seed1.len()
                        == OUTPUT_LEN && #[trigger] tree->0.built_from(secret, seed0, seed1);
                assert(server->0.tree().built_from(secret, seed0, seed1));
            }
        }
        server
    }

    /// A server whose tree is built from the given secrets, with every tag
    /// live.
    pub fn from_secrets(secret: &[u8], seed0: &[u8], seed1: &[u8]) -> (server: Self)
        requires
            hashable(secret@.len()),
            hashable(seed0@.len()),
            hashable(seed1@.len()),
        ensures
            server.tree().built_from(secret@, seed0@, seed1@),
    {
        RandomnessServer { inner: GGM::from_secrets(secret, seed0, seed1) }
    }

    /// Writes the value for the tag `md` to `output`, or refuses with
    /// `NoPrefixFound`, leaving `output` as it was, when the tag has been
    /// punctured.  A live tag needs a buffer of 32 bytes.
    pub fn eval(&self, md: u8, output: &mut [u8]) -> (done: Result<(), GGMError>)
        requires
            self.wf(),
            self.tree().eval_result(seq![md]) is Ok ==> old(output)@.len() == OUTPUT_LEN,
        ensures
            match done {
                Ok(()) => self.tree().eval_result(seq![md]) == Ok::<Seq<u8>, GGMError>(
                    final(output)@,
                ),
                Err(e) => e == GGMError::NoPrefixFound && self.tree().eval_result(seq![md])
                    == Err::<Seq<u8>, GGMError>(e) && final(output)@ == old(output)@,
            },
            final(output)@.len() == old(output)@.len(),
    {
        let md_vec = vec![md];
        assert(md_vec@ =~= seq![md]);
        self.inner.eval(md_vec.as_slice(), output)
    }

    /// Punctures the tag `md`, or refuses with `NoPrefixFound`, changing
    /// nothing, when the tag has been punctured before.
    pub fn puncture(&mut self, md: u8) -> (done: Result<(), GGMError>)
        requires
            old(self).wf(),
        ensures
            final(self).wf(),
            done == old(self).tree().puncture_result(seq![md]),
            done is Ok ==> final(self).tree().punctured_from(old(self).tree(), seq![md]),
            done matches Err(e) ==> e == GGMError::NoPrefixFound && *final(self) == *old(self),
    {
        let md_vec = vec![md];
        assert(md_vec@ =~= seq![md]);
        self.inner.puncture(md_vec.as_slice())
    }
}

} // verus!
