//! Laws of the hashing pipeline, stated over the same spec functions that
//! the executable functions' contracts use.
use crate::graph::Graph;
use crate::wl::{pairs_after, wl_hash_spec};
use vstd::prelude::*;

verus! {

/// Determinism: the digest is a function of the graph, the attribute
/// choice, the iteration count and the digest size alone, so hashing the
/// same graph twice with the same parameters yields identical digests.
pub proof fn lemma_determinism(g1: Graph, g2: Graph, use_attr: bool, k: nat, size: nat)
    requires
        g1 == g2,
    ensures
        wl_hash_spec(g1, use_attr, k, size) == wl_hash_spec(g2, use_attr, k, size),
{
}

/// Zero iterations: with no rounds the accumulated sequence is empty, so the
/// digest depends on the digest size alone — not on the graph and not on the
/// attribute choice.
pub proof fn lemma_zero_iterations(g1: Graph, g2: Graph, a1: bool, a2: bool, size: nat)
    ensures
        wl_hash_spec(g1, a1, 0, size) == wl_hash_spec(g2, a2, 0, size),
{
    assert(pairs_after(g1, a1, size, 0) =~= pairs_after(g2, a2, size, 0));
}

} // verus!
