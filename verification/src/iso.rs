//! Isomorphism invariance: renaming a graph's nodes by any bijection (and
//! carrying the edges and, if used, the attribute values along) leaves the
//! Weisfeiler-Lehman digest unchanged.
use crate::counts::counts_of;
use crate::graph::{succs, undirected_degree, Graph};
use crate::order::lemma_sorted_of_multiset;
use crate::wl::{agg_spec, labels_after, pairs_after, step_spec, succ_labels, wl_hash_spec};
use vstd::multiset::Multiset;
use vstd::prelude::*;

verus! {

/// `p` and `q` are mutually inverse maps of the node handles `0..n`.
pub open spec fn is_node_renaming(p: Seq<usize>, q: Seq<usize>, n: nat) -> bool {
    &&& p.len() == n
    &&& q.len() == n
    &&& forall|i: int| 0 <= i < n ==> (#[trigger] p[i] as int) < n
    &&& forall|i: int| 0 <= i < n ==> (#[trigger] q[i] as int) < n
    &&& forall|i: int| 0 <= i < n ==> (#[trigger] q[p[i] as int] as int) == i
    &&& forall|i: int| 0 <= i < n ==> (#[trigger] p[q[i] as int] as int) == i
}

/// Each edge carried over by the renaming `p`.
pub open spec fn map_edges(p: Seq<usize>, edges: Seq<(usize, usize)>) -> Seq<(usize, usize)> {
    edges.map_values(|e: (usize, usize)| (p[e.0 as int], p[e.1 as int]))
}

/// `g2` is `g1` with its nodes renamed by `p` (with inverse `q`): the same
/// node count, and the same edges up to the renaming and to edge order.
pub open spec fn is_isomorphism(g1: Graph, g2: Graph, p: Seq<usize>, q: Seq<usize>) -> bool {
    &&& g2.attrs@.len() == g1.attrs@.len()
    &&& is_node_renaming(p, q, g1.attrs@.len() as nat)
    &&& map_edges(p, g1.edges@).to_multiset() == g2.edges@.to_multiset()
}

/// The renaming also carries each node's attribute value along.
pub open spec fn attrs_match(g1: Graph, g2: Graph, p: Seq<usize>) -> bool {
    forall|i: int|
        0 <= i < g1.attrs@.len() ==> (#[trigger] g2.attrs@[p[i] as int])@ == g1.attrs@[i]@
}

/// All edge endpoints lie below `n`.
pub open spec fn edges_below(edges: Seq<(usize, usize)>, n: nat) -> bool {
    forall|j: int|
        0 <= j < edges.len() ==> (#[trigger] edges[j]).0 < n && edges[j].1 < n
}

spec fn incident(v: int) -> spec_fn((usize, usize)) -> bool {
    |e: (usize, usize)| e.0 as int == v || e.1 as int == v
}

proof fn lemma_filter_insert<V>(m: Multiset<V>, e: V, f: spec_fn(V) -> bool)
    ensures
        f(e) ==> m.insert(e).filter(f) =~= m.filter(f).insert(e),
        !f(e) ==> m.insert(e).filter(f) =~= m.filter(f),
{
    broadcast use vstd::multiset::group_multiset_axioms;

}

/// The undirected degree of `v` is the number of incident edges, a function
/// of the edge multiset alone.
proof fn lemma_degree_as_filter(edges: Seq<(usize, usize)>, v: int)
    ensures
        undirected_degree(edges, v) == edges.to_multiset().filter(incident(v)).len(),
    decreases edges.len(),
{
    broadcast use vstd::multiset::group_multiset_axioms;
    broadcast use vstd::seq_lib::group_to_multiset_ensures;

    if edges.len() == 0 {
        assert(edges.to_multiset() =~= Multiset::<(usize, usize)>::empty());
        assert(edges.to_multiset().filter(incident(v)) =~= Multiset::<(usize, usize)>::empty());
    } else {
        let rest = edges.drop_last();
        let e = edges.last();
        lemma_degree_as_filter(rest, v);
        assert(edges =~= rest.push(e));
        assert(edges.to_multiset() =~= rest.to_multiset().insert(e));
        lemma_filter_insert(rest.to_multiset(), e, incident(v));
    }
}

/// Renaming nodes does not change any node's undirected degree.
proof fn lemma_degree_mapped(
    p: Seq<usize>,
    q: Seq<usize>,
    n: nat,
    edges: Seq<(usize, usize)>,
    i: int,
)
    requires
        is_node_renaming(p, q, n),
        0 <= i < n,
        edges_below(edges, n),
    ensures
        undirected_degree(map_edges(p, edges), p[i] as int) == undirected_degree(edges, i),
    decreases edges.len(),
{
    if edges.len() > 0 {
        let rest = edges.drop_last();
        let e = edges.last();
        assert(edges_below(rest, n)) by {
            assert(forall|j: int| 0 <= j < rest.len() ==> rest[j] == edges[j]);
        }
        lemma_degree_mapped(p, q, n, rest, i);
        assert(map_edges(p, edges).drop_last() =~= map_edges(p, rest));
        assert(map_edges(p, edges).last() == (p[e.0 as int], p[e.1 as int]));
        assert(e == edges[edges.len() - 1]);
        assert((p[e.0 as int] as int == p[i] as int) <==> (e.0 as int == i)) by {
            if p[e.0 as int] as int == p[i] as int {
                assert(q[p[e.0 as int] as int] as int == e.0 as int);
            }
        }
        assert((p[e.1 as int] as int == p[i] as int) <==> (e.1 as int == i)) by {
            if p[e.1 as int] as int == p[i] as int {
                assert(q[p[e.1 as int] as int] as int == e.1 as int);
            }
        }
    } else {
        assert(map_edges(p, edges).len() == 0);
    }
}

/// The labels of the successor targets of `v`, in edge order.
spec fn slabels(edges: Seq<(usize, usize)>, v: int, labels: Seq<Seq<char>>) -> Seq<Seq<char>>
    decreases edges.len(),
{
    if edges.len() == 0 {
        Seq::empty()
    } else {
        let rest = slabels(edges.drop_last(), v, labels);
        if edges.last().0 == v {
            rest.push(labels[edges.last().1 as int])
        } else {
            rest
        }
    }
}

proof fn lemma_slabels_are_succ_labels(edges: Seq<(usize, usize)>, v: int, labels: Seq<Seq<char>>)
    ensures
        slabels(edges, v, labels) =~= succs(edges, v).map_values(
            |t: usize| labels[t as int],
        ),
    decreases edges.len(),
{
    if edges.len() > 0 {
        lemma_slabels_are_succ_labels(edges.drop_last(), v, labels);
        if edges.last().0 == v {
            assert(succs(edges, v).map_values(|t: usize| labels[t as int]) =~= succs(
                edges.drop_last(),
                v,
            ).map_values(|t: usize| labels[t as int]).push(labels[edges.last().1 as int]));
        }
    }
}

/// Renaming nodes maps each node's successor-label list to itself, entry by
/// entry, when the label tables correspond under the renaming.
proof fn lemma_slabels_mapped(
    p: Seq<usize>,
    q: Seq<usize>,
    n: nat,
    edges: Seq<(usize, usize)>,
    i: int,
    l1: Seq<Seq<char>>,
    l2: Seq<Seq<char>>,
)
    requires
        is_node_renaming(p, q, n),
        0 <= i < n,
        edges_below(edges, n),
        l1.len() == n,
        l2.len() == n,
        forall|j: int| 0 <= j < n ==> #[trigger] l2[p[j] as int] == l1[j],
    ensures
        slabels(map_edges(p, edges), p[i] as int, l2) =~= slabels(edges, i, l1),
    decreases edges.len(),
{
    if edges.len() > 0 {
        let rest = edges.drop_last();
        let e = edges.last();
        assert(edges_below(rest, n)) by {
            assert(forall|j: int| 0 <= j < rest.len() ==> rest[j] == edges[j]);
        }
        lemma_slabels_mapped(p, q, n, rest, i, l1, l2);
        assert(map_edges(p, edges).drop_last() =~= map_edges(p, rest));
        assert(map_edges(p, edges).last() == (p[e.0 as int], p[e.1 as int]));
        assert(e == edges[edges.len() - 1]);
        assert((p[e.0 as int] as int == p[i] as int) <==> (e.0 as int == i)) by {
            if p[e.0 as int] as int == p[i] as int {
                assert(q[p[e.0 as int] as int] as int == e.0 as int);
            }
        }
        if e.0 as int == i {
            assert(l2[p[e.1 as int] as int] == l1[e.1 as int]);
        }
    } else {
        assert(map_edges(p, edges).len() == 0);
    }
}

spec fn src_with_label(v: int, labels: Seq<Seq<char>>, x: Seq<char>) -> spec_fn(
    (usize, usize),
) -> bool {
    |e: (usize, usize)| e.0 as int == v && labels[e.1 as int] == x
}

/// How often a label occurs among `v`'s successor labels is a function of
/// the edge multiset alone.
proof fn lemma_slabels_count(
    edges: Seq<(usize, usize)>,
    v: int,
    labels: Seq<Seq<char>>,
    x: Seq<char>,
)
    ensures
        slabels(edges, v, labels).to_multiset().count(x) == edges.to_multiset().filter(
            src_with_label(v, labels, x),
        ).len(),
    decreases edges.len(),
{
    broadcast use vstd::multiset::group_multiset_axioms;
    broadcast use vstd::seq_lib::group_to_multiset_ensures;

    if edges.len() == 0 {
        assert(slabels(edges, v, labels).to_multiset() =~= Multiset::<Seq<char>>::empty());
        assert(edges.to_multiset() =~= Multiset::<(usize, usize)>::empty());
        assert(edges.to_multiset().filter(src_with_label(v, labels, x)) =~= Multiset::<
            (usize, usize),
        >::empty());
    } else {
        let rest = edges.drop_last();
        let e = edges.last();
        lemma_slabels_count(rest, v, labels, x);
        assert(edges =~= rest.push(e));
        assert(edges.to_multiset() =~= rest.to_multiset().insert(e));
        lemma_filter_insert(rest.to_multiset(), e, src_with_label(v, labels, x));
        if e.0 as int == v {
            assert(slabels(edges, v, labels) =~= slabels(rest, v, labels).push(
                labels[e.1 as int],
            ));
            assert(slabels(edges, v, labels).to_multiset() =~= slabels(
                rest,
                v,
                labels,
            ).to_multiset().insert(labels[e.1 as int]));
        } else {
            assert(slabels(edges, v, labels) =~= slabels(rest, v, labels));
        }
    }
}

/// Successor-label multisets agree for edge lists that are permutations of
/// one another.
proof fn lemma_slabels_multiset_eq(
    e1: Seq<(usize, usize)>,
    e2: Seq<(usize, usize)>,
    v: int,
    labels: Seq<Seq<char>>,
)
    requires
        e1.to_multiset() == e2.to_multiset(),
    ensures
        slabels(e1, v, labels).to_multiset() =~= slabels(e2, v, labels).to_multiset(),
{
    broadcast use vstd::multiset::group_multiset_axioms;

    assert forall|x: Seq<char>|
        slabels(e1, v, labels).to_multiset().count(x) == slabels(
            e2,
            v,
            labels,
        ).to_multiset().count(x) by {
        lemma_slabels_count(e1, v, labels, x);
        lemma_slabels_count(e2, v, labels, x);
    }
}

/// A table and its reindexing under a bijection of the handles hold the
/// same entries, as a multiset.
proof fn lemma_reindex_multiset<A>(p: Seq<usize>, q: Seq<usize>, a: Seq<A>, b: Seq<A>)
    requires
        is_node_renaming(p, q, a.len() as nat),
        b.len() == a.len(),
        forall|i: int| 0 <= i < a.len() ==> #[trigger] b[p[i] as int] == a[i],
    ensures
        a.to_multiset() == b.to_multiset(),
    decreases a.len(),
{
    broadcast use vstd::multiset::group_multiset_axioms;
    broadcast use vstd::seq_lib::group_to_multiset_ensures;

    let n = a.len();
    if n > 0 {
        let j = p[n - 1] as int;
        let a1 = a.drop_last();
        let b1 = b.remove(j);
        let p1 = Seq::new(
            (n - 1) as nat,
            |i: int|
                if (p[i] as int) < j {
                    p[i]
                } else {
                    (p[i] - 1) as usize
                },
        );
        let q1 = Seq::new(
            (n - 1) as nat,
            |m: int|
                if m < j {
                    q[m]
                } else {
                    q[m + 1]
                },
        );
        assert forall|i: int| 0 <= i < n - 1 implies p[i] as int != j by {
            if p[i] as int == j {
                assert(q[p[i] as int] as int == i);
                assert(q[p[n - 1] as int] as int == n - 1);
            }
        }
        assert forall|m: int| 0 <= m < n && m != j implies (q[m] as int) != n - 1 by {
            if q[m] as int == n - 1 {
                assert(p[q[m] as int] as int == m);
            }
        }
        assert(is_node_renaming(p1, q1, (n - 1) as nat)) by {
            assert forall|i: int| 0 <= i < n - 1 implies (#[trigger] p1[i] as int) < n - 1 by {
                assert(p[i] as int != j);
            }
            assert forall|m: int| 0 <= m < n - 1 implies (#[trigger] q1[m] as int) < n - 1 by {
                if m < j {
                    assert(q1[m] == q[m]);
                    assert((q[m] as int) != n - 1);
                } else {
                    assert(q1[m] == q[m + 1]);
                    assert(m + 1 != j);
                    assert((q[m + 1] as int) != n - 1);
                }
            }
            assert forall|i: int| 0 <= i < n - 1 implies (#[trigger] q1[p1[i] as int] as int)
                == i by {
                assert(p[i] as int != j);
                if (p[i] as int) < j {
                    assert(p1[i] == p[i]);
                    assert(q1[p1[i] as int] == q[p[i] as int]);
                } else {
                    assert(p1[i] as int == p[i] - 1);
                    assert(p1[i] as int >= j);
                    assert(q1[p1[i] as int] == q[p[i] as int]);
                }
            }
            assert forall|m: int| 0 <= m < n - 1 implies (#[trigger] p1[q1[m] as int] as int)
                == m by {
                if m < j {
                    let i0 = q[m] as int;
                    assert(q1[m] == q[m]);
                    assert(i0 < n - 1);
                    assert(p[i0] as int == m);
                    assert(p1[i0] == p[i0]);
                } else {
                    let i0 = q[m + 1] as int;
                    assert(q1[m] == q[m + 1]);
                    assert(i0 < n - 1);
                    assert(p[i0] as int == m + 1);
                    assert(p1[i0] as int == p[i0] - 1);
                }
            }
        }
        assert forall|i: int| 0 <= i < n - 1 implies #[trigger] b1[p1[i] as int] == a1[i] by {
            assert(p[i] as int != j);
            assert(b[p[i] as int] == a[i]);
            if (p[i] as int) < j {
                assert(b1[p1[i] as int] == b[p[i] as int]);
            } else {
                assert(p1[i] as int == p[i] - 1);
                assert(b1[p[i] - 1] == b[p[i] as int]);
            }
        }
        lemma_reindex_multiset(p1, q1, a1, b1);
        assert(a =~= a1.push(a[n - 1]));
        assert(a.to_multiset() =~= a1.to_multiset().insert(a[n - 1]));
        assert(b[j] == a[n - 1]);
        assert(b1.to_multiset() =~= b.to_multiset().remove(b[j]));
        assert(b.contains(b[j]));
        assert(b.to_multiset().count(b[j]) > 0);
        assert(b.to_multiset() =~= b1.to_multiset().insert(b[j]));
        assert(a.to_multiset() =~= b.to_multiset());
    } else {
        assert(a =~= b);
    }
}

proof fn lemma_labels_after_len(g: Graph, ua: bool, size: nat, k: nat)
    ensures
        labels_after(g, ua, size, k).len() == g.attrs@.len(),
{
    if k == 0 {
    } else {
    }
}

/// After any number of rounds, corresponding nodes of isomorphic graphs
/// carry the same label.
proof fn lemma_labels_iso(
    g1: Graph,
    g2: Graph,
    p: Seq<usize>,
    q: Seq<usize>,
    ua: bool,
    size: nat,
    k: nat,
)
    requires
        g1.wf(),
        g2.wf(),
        is_isomorphism(g1, g2, p, q),
        ua ==> attrs_match(g1, g2, p),
    ensures
        forall|i: int|
            0 <= i < g1.attrs@.len() ==> #[trigger] labels_after(g2, ua, size, k)[p[i] as int]
                == labels_after(g1, ua, size, k)[i],
    decreases k,
{
    let n = g1.attrs@.len();
    assert(edges_below(g1.edges@, n as nat));
    if k == 0 {
        assert forall|i: int| 0 <= i < n implies #[trigger] labels_after(g2, ua, size, 0)[p[i] as int]
            == labels_after(g1, ua, size, 0)[i] by {
            if ua {
                assert(g2.attrs@[p[i] as int]@ == g1.attrs@[i]@);
            } else {
                lemma_degree_as_filter(g2.edges@, p[i] as int);
                lemma_degree_as_filter(map_edges(p, g1.edges@), p[i] as int);
                lemma_degree_mapped(p, q, n as nat, g1.edges@, i);
            }
        }
    } else {
        lemma_labels_iso(g1, g2, p, q, ua, size, (k - 1) as nat);
        let l1 = labels_after(g1, ua, size, (k - 1) as nat);
        let l2 = labels_after(g2, ua, size, (k - 1) as nat);
        lemma_labels_after_len(g1, ua, size, (k - 1) as nat);
        lemma_labels_after_len(g2, ua, size, (k - 1) as nat);
        assert forall|j: int| 0 <= j < n implies #[trigger] l2[p[j] as int] == l1[j] by {
            assert(labels_after(g2, ua, size, (k - 1) as nat)[p[j] as int] == labels_after(
                g1,
                ua,
                size,
                (k - 1) as nat,
            )[j]);
        }
        assert forall|i: int| 0 <= i < n implies #[trigger] labels_after(g2, ua, size, k)[p[i] as int]
            == labels_after(g1, ua, size, k)[i] by {
            assert(labels_after(g2, ua, size, k) == step_spec(g2, l2, size));
            assert(labels_after(g1, ua, size, k) == step_spec(g1, l1, size));
            lemma_slabels_mapped(p, q, n as nat, g1.edges@, i, l1, l2);
            lemma_slabels_multiset_eq(g2.edges@, map_edges(p, g1.edges@), p[i] as int, l2);
            lemma_slabels_are_succ_labels(g2.edges@, p[i] as int, l2);
            lemma_slabels_are_succ_labels(g1.edges@, i, l1);
            assert(succ_labels(g2, p[i] as int, l2).to_multiset() == succ_labels(
                g1,
                i,
                l1,
            ).to_multiset());
            lemma_sorted_of_multiset(succ_labels(g2, p[i] as int, l2), succ_labels(g1, i, l1));
            assert(l2[p[i] as int] == l1[i]);
            assert(agg_spec(g2, p[i] as int, l2) == agg_spec(g1, i, l1));
        }
    }
}

proof fn lemma_pairs_iso(
    g1: Graph,
    g2: Graph,
    p: Seq<usize>,
    q: Seq<usize>,
    ua: bool,
    size: nat,
    k: nat,
)
    requires
        g1.wf(),
        g2.wf(),
        is_isomorphism(g1, g2, p, q),
        ua ==> attrs_match(g1, g2, p),
    ensures
        pairs_after(g1, ua, size, k) == pairs_after(g2, ua, size, k),
    decreases k,
{
    if k == 0 {
        assert(pairs_after(g1, ua, size, 0) =~= pairs_after(g2, ua, size, 0));
    } else {
        lemma_pairs_iso(g1, g2, p, q, ua, size, (k - 1) as nat);
        lemma_labels_iso(g1, g2, p, q, ua, size, k);
        let n = g1.attrs@.len();
        let l1 = labels_after(g1, ua, size, k);
        let l2 = labels_after(g2, ua, size, k);
        lemma_labels_after_len(g1, ua, size, k);
        lemma_labels_after_len(g2, ua, size, k);
        assert forall|j: int| 0 <= j < n implies #[trigger] l2[p[j] as int] == l1[j] by {
            assert(labels_after(g2, ua, size, k)[p[j] as int] == labels_after(g1, ua, size, k)[j]);
        }
        lemma_reindex_multiset(p, q, l1, l2);
        lemma_sorted_of_multiset(l1, l2);
        assert(counts_of(l1) == counts_of(l2));
        assert(pairs_after(g1, ua, size, k) =~= pairs_after(g2, ua, size, k));
    }
}

/// Isomorphism invariance: two graphs that are the same up to a renaming of
/// their node handles — same structure, and matching attribute values when
/// an attribute is used — receive the same digest for every iteration count
/// and digest size.
pub proof fn lemma_isomorphism_invariance(
    g1: Graph,
    g2: Graph,
    p: Seq<usize>,
    q: Seq<usize>,
    use_attr: bool,
    k: nat,
    size: nat,
)
    requires
        g1.wf(),
        g2.wf(),
        is_isomorphism(g1, g2, p, q),
        use_attr ==> attrs_match(g1, g2, p),
    ensures
        wl_hash_spec(g1, use_attr, k, size) == wl_hash_spec(g2, use_attr, k, size),
{
    lemma_pairs_iso(g1, g2, p, q, use_attr, size, k);
}

} // verus!
