//! What a tree guarantees to its callers, over the results that `eval` and
//! `puncture` are specified to return.

use crate::bits::{bytes_of_bits, lemma_lsb0_bits_injective, lemma_lsb0_bits_onto, lsb0_bits};
use crate::frontier::{
    covered, covers, lemma_exhausted_frontier_empty, lemma_puncture_consistent,
    punctured_frontier,
};
use crate::ggm::GGM;
use crate::key::GGMError;
use vstd::prelude::*;

verus! {

/// Two evaluations of one tree at one input return the same output.
pub proof fn eval_is_deterministic(tree: GGM, input: Seq<u8>, first: Seq<u8>, second: Seq<u8>)
    requires
        tree.eval_result(input) == Ok::<Seq<u8>, GGMError>(first),
        tree.eval_result(input) == Ok::<Seq<u8>, GGMError>(second),
    ensures
        first == second,
{
}

/// An input of the tree's length is refused, by `eval` and by `puncture`,
/// exactly when it has been punctured.
pub proof fn refused_exactly_when_punctured(tree: GGM, input: Seq<u8>)
    requires
        tree.wf(),
        input.len() == tree.width(),
    ensures
        tree.is_punctured(input) <==> tree.eval_result(input) == Err::<Seq<u8>, GGMError>(
            GGMError::NoPrefixFound,
        ),
        !tree.is_punctured(input) <==> tree.eval_result(input) == Ok::<Seq<u8>, GGMError>(
            tree.output(input),
        ),
        tree.is_punctured(input) <==> tree.puncture_result(input) == Err::<(), GGMError>(
            GGMError::NoPrefixFound,
        ),
        !tree.is_punctured(input) <==> tree.puncture_result(input) == Ok::<(), GGMError>(()),
{
    let leaf = lsb0_bits(input);
    assert(leaf.len() == tree.depth());
    assert(covered(tree.frontier(), leaf) <==> !tree.punctured().contains(leaf));
}

/// A successful puncture leaves a well-formed tree.
pub proof fn puncture_keeps_invariant(pre: GGM, post: GGM, input: Seq<u8>)
    requires
        pre.wf(),
        pre.puncture_result(input) is Ok,
        post.punctured_from(pre, input),
    ensures
        post.wf(),
{
    let x = lsb0_bits(input);
    let c = choose|c: int|
        covers(pre.frontier(), c, x) && post.frontier() == punctured_frontier(
            pre.seed(),
            pre.frontier(),
            x,
            c,
        );
    lemma_puncture_consistent(pre.seed(), pre.depth(), pre.frontier(), pre.punctured(), x, c);
}

/// After a successful puncture at an input, an evaluation at that input is
/// refused for want of a covering prefix.
pub proof fn punctured_input_is_refused(pre: GGM, post: GGM, input: Seq<u8>)
    requires
        pre.wf(),
        pre.puncture_result(input) is Ok,
        post.punctured_from(pre, input),
    ensures
        post.is_punctured(input),
        post.eval_result(input) == Err::<Seq<u8>, GGMError>(GGMError::NoPrefixFound),
{
    puncture_keeps_invariant(pre, post, input);
    let x = lsb0_bits(input);
    assert(post.punctured()[pre.punctured().len() as int] == x);
    refused_exactly_when_punctured(post, input);
}

/// A successful puncture at one input changes the result of an evaluation at
/// no other input: a live one keeps its output, a punctured one stays
/// refused.
pub proof fn other_inputs_are_untouched(pre: GGM, post: GGM, input: Seq<u8>, other: Seq<u8>)
    requires
        pre.wf(),
        pre.puncture_result(input) is Ok,
        post.punctured_from(pre, input),
        other != input,
    ensures
        post.eval_result(other) == pre.eval_result(other),
{
    puncture_keeps_invariant(pre, post, input);
    if other.len() == pre.width() {
        let x = lsb0_bits(input);
        let y = lsb0_bits(other);
        if x == y {
            lemma_lsb0_bits_injective(input, other);
        }
        let pu = pre.punctured();
        let pu2 = post.punctured();
        assert(pu2.contains(y) <==> pu.contains(y)) by {
            if pu.contains(y) {
                let j = choose|j: int| 0 <= j < pu.len() && pu[j] == y;
                assert(pu2[j] == y);
            }
            if pu2.contains(y) {
                let j = choose|j: int| 0 <= j < pu2.len() && pu2[j] == y;
                assert(pu[j] == y);
            }
        }
        refused_exactly_when_punctured(pre, other);
        refused_exactly_when_punctured(post, other);
    }
}

/// After a successful puncture at an input, a second puncture at that input
/// is refused for want of a covering prefix.
pub proof fn second_puncture_is_refused(pre: GGM, post: GGM, input: Seq<u8>)
    requires
        pre.wf(),
        pre.puncture_result(input) is Ok,
        post.punctured_from(pre, input),
    ensures
        post.puncture_result(input) == Err::<(), GGMError>(GGMError::NoPrefixFound),
{
    puncture_keeps_invariant(pre, post, input);
    punctured_input_is_refused(pre, post, input);
    refused_exactly_when_punctured(post, input);
}

/// Once every input of the tree's length has been punctured, the frontier is
/// empty.
pub proof fn exhausted_tree_has_empty_frontier(tree: GGM)
    requires
        tree.wf(),
        forall|input: Seq<u8>| input.len() == tree.width() ==> #[trigger] tree.is_punctured(input),
    ensures
        tree.frontier().len() == 0,
{
    let pu = tree.punctured();
    assert forall|leaf: Seq<bool>| leaf.len() == tree.depth() implies #[trigger] pu.contains(
        leaf,
    ) by {
        let input = bytes_of_bits(leaf);
        lemma_lsb0_bits_onto(leaf);
        assert(tree.is_punctured(input));
    }
    lemma_exhausted_frontier_empty(tree.seed(), tree.depth(), tree.frontier(), pu);
}

/// An input of another length than the tree's is refused as such, by `eval`
/// and by `puncture`.
pub proof fn wrong_length_is_refused(tree: GGM, input: Seq<u8>)
    requires
        input.len() != tree.width(),
    ensures
        tree.eval_result(input) == Err::<Seq<u8>, GGMError>(GGMError::LengthMismatch),
        tree.puncture_result(input) == Err::<(), GGMError>(GGMError::LengthMismatch),
{
}

} // verus!
