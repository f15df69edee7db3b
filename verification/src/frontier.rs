//! The mathematics of the tree: node values, frontiers, and what a puncture
//! does to a frontier.
//!
//! A node is named by its path from the root, a non-empty string of bits.  Its
//! value is obtained from the value of the root's child on the path's first
//! bit by one generator application per further bit.  A frontier is a list of
//! nodes, each with its value; a leaf can be evaluated while some node of the
//! frontier lies on its path.

use crate::prg::hmac_tag;
use vstd::prelude::*;

verus! {

/// What fixes every value of a tree: the keys of the two directional
/// generators and the values of the root's two children.
pub struct TreeSeed {
    pub key0: ring::hmac::Key,
    pub key1: ring::hmac::Key,
    pub root0: Seq<u8>,
    pub root1: Seq<u8>,
}

impl TreeSeed {
    /// One step down the tree: the generator for `bit`, applied to `value`.
    pub open spec fn step(self, bit: bool, value: Seq<u8>) -> Seq<u8> {
        hmac_tag(
            if bit {
                self.key1
            } else {
                self.key0
            },
            value,
        )
    }

    /// The value reached from `value` by one step per bit of `path`, in order.
    pub open spec fn expand(self, value: Seq<u8>, path: Seq<bool>) -> Seq<u8>
        decreases path.len(),
    {
        if path.len() == 0 {
            value
        } else {
            self.step(path.last(), self.expand(value, path.drop_last()))
        }
    }

    /// The value of the root's child on `bit`.
    pub open spec fn root(self, bit: bool) -> Seq<u8> {
        if bit {
            self.root1
        } else {
            self.root0
        }
    }

    /// The value of the node at `path`, a path of at least one bit.
    pub open spec fn node_value(self, path: Seq<bool>) -> Seq<u8> {
        self.expand(self.root(path[0]), path.subrange(1, path.len() as int))
    }
}

/// The node beside the one that `x` passes at depth `i + 1`: the first `i`
/// bits of `x`, then the opposite of its bit `i`.
pub open spec fn sibling(x: Seq<bool>, i: int) -> Seq<bool> {
    x.subrange(0, i).push(!x[i])
}

/// The entries that replace a frontier node of depth `depth` and value `value`
/// when the leaf `x` below it is punctured: the siblings of the nodes on the
/// path of `x` below that node, deepest first, each with its value.
pub open spec fn sibling_entries(seed: TreeSeed, x: Seq<bool>, depth: int, value: Seq<u8>) -> Seq<
    (Seq<bool>, Seq<u8>),
> {
    Seq::new(
        (x.len() - depth) as nat,
        |j: int|
            {
                let i = x.len() - 1 - j;
                (sibling(x, i), seed.expand(value, sibling(x, i).subrange(depth, i + 1)))
            },
    )
}

/// Entry `i` of the frontier lies on the path `bits`.
pub open spec fn covers(fr: Seq<(Seq<bool>, Seq<u8>)>, i: int, bits: Seq<bool>) -> bool {
    0 <= i < fr.len() && fr[i].0.is_prefix_of(bits)
}

/// Some entry of the frontier lies on the path `bits`.
pub open spec fn covered(fr: Seq<(Seq<bool>, Seq<u8>)>, bits: Seq<bool>) -> bool {
    exists|i: int| covers(fr, i, bits)
}

/// Entry `i` is the first of the frontier that lies on the path `bits`.
pub open spec fn first_cover(fr: Seq<(Seq<bool>, Seq<u8>)>, i: int, bits: Seq<bool>) -> bool {
    covers(fr, i, bits) && forall|j: int| 0 <= j < i ==> !covers(fr, j, bits)
}

/// Entry `i` is the first of the frontier whose path is exactly `path`.
pub open spec fn first_match(fr: Seq<(Seq<bool>, Seq<u8>)>, i: int, path: Seq<bool>) -> bool {
    0 <= i < fr.len() && fr[i].0 == path && forall|j: int| 0 <= j < i ==> fr[j].0 != path
}

/// No entry of the frontier lies on the path to another.
pub open spec fn antichain(fr: Seq<(Seq<bool>, Seq<u8>)>) -> bool {
    forall|i: int, j: int|
        0 <= i < fr.len() && 0 <= j < fr.len() && i != j ==> !(#[trigger] fr[i]).0.is_prefix_of(
            (#[trigger] fr[j]).0,
        )
}

/// The frontier `fr` and the record `pu` of punctured leaves fit a tree of
/// depth `n` with the given seed:
/// every entry names a node of the tree and carries that node's value; no
/// entry lies above another; the record holds leaves only; and a leaf is
/// below some entry exactly if it is not in the record.
pub open spec fn consistent(
    seed: TreeSeed,
    n: nat,
    fr: Seq<(Seq<bool>, Seq<u8>)>,
    pu: Seq<Seq<bool>>,
) -> bool {
    &&& forall|i: int|
        0 <= i < fr.len() ==> 1 <= (#[trigger] fr[i]).0.len() <= n && fr[i].1 == seed.node_value(
            fr[i].0,
        )
    &&& antichain(fr)
    &&& forall|j: int| 0 <= j < pu.len() ==> (#[trigger] pu[j]).len() == n
    &&& forall|leaf: Seq<bool>|
        #![trigger covered(fr, leaf)]
        #![trigger pu.contains(leaf)]
        leaf.len() == n ==> (covered(fr, leaf) <==> !pu.contains(leaf))
}

/// The frontier that a puncture of the leaf `x` under entry `c` leaves.
pub open spec fn punctured_frontier(
    seed: TreeSeed,
    fr: Seq<(Seq<bool>, Seq<u8>)>,
    x: Seq<bool>,
    c: int,
) -> Seq<(Seq<bool>, Seq<u8>)> {
    fr.remove(c) + sibling_entries(seed, x, fr[c].0.len() as int, fr[c].1)
}

/// Expanding along a concatenation is expanding along the first part, then
/// along the second.
pub proof fn lemma_expand_concat(seed: TreeSeed, value: Seq<u8>, a: Seq<bool>, b: Seq<bool>)
    ensures
        seed.expand(value, a + b) == seed.expand(seed.expand(value, a), b),
    decreases b.len(),
{
    if b.len() == 0 {
        assert(a + b =~= a);
    } else {
        assert((a + b).drop_last() =~= a + b.drop_last());
        assert((a + b).last() == b.last());
        lemma_expand_concat(seed, value, a, b.drop_last());
    }
}

/// The value of a node is reached from the value of any node above it by
/// expanding along the bits between the two.
pub proof fn lemma_node_value_below(seed: TreeSeed, p: Seq<bool>, s: Seq<bool>)
    requires
        p.len() >= 1,
        p.is_prefix_of(s),
    ensures
        seed.node_value(s) == seed.expand(
            seed.node_value(p),
            s.subrange(p.len() as int, s.len() as int),
        ),
{
    let head = p.subrange(1, p.len() as int);
    let tail = s.subrange(p.len() as int, s.len() as int);
    assert(s.subrange(1, s.len() as int) =~= head + tail);
    assert(s[0] == p[0]);
    lemma_expand_concat(seed, seed.root(p[0]), head, tail);
}

/// Two prefixes of one string: one of them is a prefix of the other.
pub proof fn lemma_prefixes_comparable(a: Seq<bool>, b: Seq<bool>, s: Seq<bool>)
    requires
        a.is_prefix_of(s),
        b.is_prefix_of(s),
    ensures
        a.is_prefix_of(b) || b.is_prefix_of(a),
{
    if a.len() <= b.len() {
        assert(a =~= b.subrange(0, a.len() as int));
    } else {
        assert(b =~= a.subrange(0, b.len() as int));
    }
}

/// A prefix of a prefix is a prefix.
pub proof fn lemma_prefix_transitive(a: Seq<bool>, b: Seq<bool>, s: Seq<bool>)
    requires
        a.is_prefix_of(b),
        b.is_prefix_of(s),
    ensures
        a.is_prefix_of(s),
{
    assert(a =~= s.subrange(0, a.len() as int));
}

/// Two different strings of one length that agree on their first `from` bits
/// first differ at some later position.
pub proof fn lemma_first_difference(x: Seq<bool>, y: Seq<bool>, from: int) -> (i: int)
    requires
        x.len() == y.len(),
        0 <= from <= x.len(),
        x.subrange(0, from) == y.subrange(0, from),
        x != y,
    ensures
        from <= i < x.len(),
        x.subrange(0, i) == y.subrange(0, i),
        x[i] != y[i],
    decreases x.len() - from,
{
    if from == x.len() {
        assert(x =~= x.subrange(0, from));
        assert(y =~= y.subrange(0, from));
        from
    } else if x[from] != y[from] {
        from
    } else {
        assert(x.subrange(0, from + 1) =~= x.subrange(0, from).push(x[from]));
        assert(y.subrange(0, from + 1) =~= y.subrange(0, from).push(y[from]));
        lemma_first_difference(x, y, from + 1)
    }
}

/// A sibling on the path of `x` below a node `p` above `x`: it lies below `p`
/// and beside `x`.
pub proof fn lemma_sibling_shape(x: Seq<bool>, p: Seq<bool>, i: int)
    requires
        p.is_prefix_of(x),
        p.len() <= i < x.len(),
    ensures
        sibling(x, i).len() == i + 1,
        p.is_prefix_of(sibling(x, i)),
        !sibling(x, i).is_prefix_of(x),
        sibling(x, i)[i] == !x[i],
        forall|k: int| 0 <= k < i ==> sibling(x, i)[k] == x[k],
{
    let s = sibling(x, i);
    assert(p =~= s.subrange(0, p.len() as int));
    if s.is_prefix_of(x) {
        assert(s[i] == x.subrange(0, s.len() as int)[i]);
    }
}

/// Each entry of the frontier after a puncture is an entry of the frontier
/// before it, other than the one that covered the leaf, or one of the new
/// sibling entries; and each of those is an entry after.
pub proof fn lemma_punctured_frontier_entries(
    seed: TreeSeed,
    fr: Seq<(Seq<bool>, Seq<u8>)>,
    x: Seq<bool>,
    c: int,
)
    requires
        covers(fr, c, x),
    ensures
        ({
            let post = punctured_frontier(seed, fr, x, c);
            let depth = fr[c].0.len() as int;
            let sib = sibling_entries(seed, x, depth, fr[c].1);
            &&& post.len() == fr.len() - 1 + (x.len() - depth)
            &&& sib.len() == x.len() - depth
            &&& forall|k: int| 0 <= k < c ==> #[trigger] post[k] == fr[k]
            &&& forall|k: int| c <= k < fr.len() - 1 ==> #[trigger] post[k] == fr[k + 1]
            &&& forall|k: int|
                fr.len() - 1 <= k < post.len() ==> #[trigger] post[k] == sib[k - (fr.len() - 1)]
            &&& forall|j: int|
                0 <= j < sib.len() ==> (#[trigger] sib[j]).0 == sibling(x, x.len() - 1 - j)
                    && sib[j].1 == seed.expand(
                    fr[c].1,
                    sibling(x, x.len() - 1 - j).subrange(depth, x.len() - j),
                )
        }),
{
}

/// Puncturing a covered leaf keeps frontier and record consistent with the
/// tree.
pub proof fn lemma_puncture_consistent(
    seed: TreeSeed,
    n: nat,
    fr: Seq<(Seq<bool>, Seq<u8>)>,
    pu: Seq<Seq<bool>>,
    x: Seq<bool>,
    c: int,
)
    requires
        consistent(seed, n, fr, pu),
        x.len() == n,
        covers(fr, c, x),
    ensures
        consistent(seed, n, punctured_frontier(seed, fr, x, c), pu.push(x)),
{
    lemma_puncture_values(seed, n, fr, pu, x, c);
    lemma_puncture_antichain(seed, n, fr, pu, x, c);
    lemma_puncture_coverage(seed, n, fr, pu, x, c);
    let pu2 = pu.push(x);
    assert forall|j: int| 0 <= j < pu2.len() implies (#[trigger] pu2[j]).len() == n by {
        if j < pu.len() {
            assert(pu2[j] == pu[j]);
        }
    }
}

/// After a puncture every entry still names a node of the tree and carries
/// its value.
pub proof fn lemma_puncture_values(
    seed: TreeSeed,
    n: nat,
    fr: Seq<(Seq<bool>, Seq<u8>)>,
    pu: Seq<Seq<bool>>,
    x: Seq<bool>,
    c: int,
)
    requires
        consistent(seed, n, fr, pu),
        x.len() == n,
        covers(fr, c, x),
    ensures
        forall|k: int|
            #![trigger punctured_frontier(seed, fr, x, c)[k]]
            0 <= k < punctured_frontier(seed, fr, x, c).len() ==> {
                let e = punctured_frontier(seed, fr, x, c)[k];
                1 <= e.0.len() <= n && e.1 == seed.node_value(e.0)
            },
{
    let post = punctured_frontier(seed, fr, x, c);
    let p = fr[c].0;
    let depth = p.len() as int;
    lemma_punctured_frontier_entries(seed, fr, x, c);
    assert forall|k: int| 0 <= k < post.len() implies 1 <= (#[trigger] post[k]).0.len() <= n
        && post[k].1 == seed.node_value(post[k].0) by {
        if k < c {
            assert(post[k] == fr[k]);
        } else if k < fr.len() - 1 {
            assert(post[k] == fr[k + 1]);
        } else {
            let j = k - (fr.len() - 1);
            let i = x.len() - 1 - j;
            let s = sibling(x, i);
            lemma_sibling_shape(x, p, i);
            lemma_node_value_below(seed, p, s);
            assert(fr[c].1 == seed.node_value(p));
        }
    }
}

/// After a puncture no entry lies on the path to another.
pub proof fn lemma_puncture_antichain(
    seed: TreeSeed,
    n: nat,
    fr: Seq<(Seq<bool>, Seq<u8>)>,
    pu: Seq<Seq<bool>>,
    x: Seq<bool>,
    c: int,
)
    requires
        consistent(seed, n, fr, pu),
        x.len() == n,
        covers(fr, c, x),
    ensures
        antichain(punctured_frontier(seed, fr, x, c)),
{
    let post = punctured_frontier(seed, fr, x, c);
    let p = fr[c].0;
    let depth = p.len() as int;
    let base = fr.len() - 1;
    lemma_punctured_frontier_entries(seed, fr, x, c);
    assert forall|a: int, b: int|
        0 <= a < post.len() && 0 <= b < post.len() && a != b implies !(#[trigger] post[a]).0.is_prefix_of(
        (#[trigger] post[b]).0,
    ) by {
        let qa = post[a].0;
        let qb = post[b].0;
        if a < base && b < base {
            let ia = if a < c {
                a
            } else {
                a + 1
            };
            let ib = if b < c {
                b
            } else {
                b + 1
            };
            assert(post[a] == fr[ia] && post[b] == fr[ib]);
        } else if a < base {
            // an old entry above a new sibling
            let ia = if a < c {
                a
            } else {
                a + 1
            };
            assert(post[a] == fr[ia]);
            let i = x.len() - 1 - (b - base);
            lemma_sibling_shape(x, p, i);
            if qa.is_prefix_of(qb) {
                lemma_prefixes_comparable(qa, p, qb);
                assert(fr[ia].0.is_prefix_of(fr[c].0) || fr[c].0.is_prefix_of(fr[ia].0));
            }
        } else if b < base {
            // a new sibling above an old entry
            let ib = if b < c {
                b
            } else {
                b + 1
            };
            assert(post[b] == fr[ib]);
            let i = x.len() - 1 - (a - base);
            lemma_sibling_shape(x, p, i);
            if qa.is_prefix_of(qb) {
                lemma_prefix_transitive(p, qa, qb);
                assert(fr[c].0.is_prefix_of(fr[ib].0));
            }
        } else {
            // two new siblings
            let i = x.len() - 1 - (a - base);
            let j = x.len() - 1 - (b - base);
            lemma_sibling_shape(x, p, i);
            lemma_sibling_shape(x, p, j);
            if qa.is_prefix_of(qb) {
                assert(i < j);
                assert(qa[i] == qb.subrange(0, qa.len() as int)[i]);
            }
        }
    }
}

/// After a puncture a leaf is below some entry exactly if it is neither in
/// the earlier record nor the punctured leaf.
pub proof fn lemma_puncture_coverage(
    seed: TreeSeed,
    n: nat,
    fr: Seq<(Seq<bool>, Seq<u8>)>,
    pu: Seq<Seq<bool>>,
    x: Seq<bool>,
    c: int,
)
    requires
        consistent(seed, n, fr, pu),
        x.len() == n,
        covers(fr, c, x),
    ensures
        forall|leaf: Seq<bool>|
            #![trigger covered(punctured_frontier(seed, fr, x, c), leaf)]
            #![trigger pu.push(x).contains(leaf)]
            leaf.len() == n ==> (covered(punctured_frontier(seed, fr, x, c), leaf)
                <==> !pu.push(x).contains(leaf)),
{
    let post = punctured_frontier(seed, fr, x, c);
    let pu2 = pu.push(x);
    let p = fr[c].0;
    let depth = p.len() as int;
    let base = fr.len() - 1;
    lemma_punctured_frontier_entries(seed, fr, x, c);
    assert forall|leaf: Seq<bool>| leaf.len() == n implies (covered(post, leaf)
        <==> !pu2.contains(leaf)) by {
        assert(pu2.contains(leaf) <==> pu.contains(leaf) || leaf == x) by {
            if pu.contains(leaf) {
                let j = choose|j: int| 0 <= j < pu.len() && pu[j] == leaf;
                assert(pu2[j] == leaf);
            }
            assert(pu2[pu.len() as int] == x);
            if pu2.contains(leaf) {
                let j = choose|j: int| 0 <= j < pu2.len() && pu2[j] == leaf;
                if j < pu.len() {
                    assert(pu[j] == leaf);
                }
            }
        }
        if covered(post, leaf) {
            let k = choose|k: int| covers(post, k, leaf);
            if k < base {
                let ik = if k < c {
                    k
                } else {
                    k + 1
                };
                assert(post[k] == fr[ik]);
                assert(covers(fr, ik, leaf));
                if leaf == x {
                    lemma_prefixes_comparable(fr[ik].0, fr[c].0, x);
                }
            } else {
                let i = x.len() - 1 - (k - base);
                let s = sibling(x, i);
                lemma_sibling_shape(x, p, i);
                lemma_prefix_transitive(p, s, leaf);
                assert(covers(fr, c, leaf));
            }
        }
        if !pu.contains(leaf) && leaf != x {
            assert(covered(fr, leaf));
            let k = choose|k: int| covers(fr, k, leaf);
            if k < c {
                assert(post[k] == fr[k]);
                assert(covers(post, k, leaf));
            } else if k > c {
                assert(post[k - 1] == fr[k]);
                assert(covers(post, k - 1, leaf));
            } else {
                assert(x.subrange(0, depth) =~= p);
                assert(leaf.subrange(0, depth) =~= p);
                let i = lemma_first_difference(x, leaf, depth);
                let s = sibling(x, i);
                lemma_sibling_shape(x, p, i);
                assert(s =~= leaf.subrange(0, i + 1)) by {
                    assert forall|t: int| 0 <= t < i + 1 implies s[t] == leaf[t] by {
                        if t < i {
                            assert(x.subrange(0, i)[t] == leaf.subrange(0, i)[t]);
                        }
                    }
                }
                let k2 = base + (x.len() - 1 - i);
                assert(post[k2].0 == s);
                assert(covers(post, k2, leaf));
            }
        }
    }
}

/// A frontier under which every leaf is punctured has no entries.
pub proof fn lemma_exhausted_frontier_empty(
    seed: TreeSeed,
    n: nat,
    fr: Seq<(Seq<bool>, Seq<u8>)>,
    pu: Seq<Seq<bool>>,
)
    requires
        consistent(seed, n, fr, pu),
        forall|leaf: Seq<bool>| leaf.len() == n ==> #[trigger] pu.contains(leaf),
    ensures
        fr.len() == 0,
{
    if fr.len() > 0 {
        let p = fr[0].0;
        let leaf = p + Seq::new((n - p.len()) as nat, |k: int| false);
        assert(p =~= leaf.subrange(0, p.len() as int));
        assert(covers(fr, 0, leaf));
        assert(covered(fr, leaf));
        assert(pu.contains(leaf));
    }
}

} // verus!
