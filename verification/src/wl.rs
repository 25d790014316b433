//! The Weisfeiler-Lehman hashing pipeline: initial label assignment,
//! neighborhood aggregation, iterative relabeling with cryptographic
//! compression, and final digest synthesis.
use crate::counts::{
    concat_all, counts_of, dec_of, label_counts, pairs_view, push_decimal, render_counts,
    render_pairs,
};
use crate::digest::{
    blake2b_var_digest, digest_spec, hex_encode, lemma_hex_of_len, MAX_DIGEST_SIZE,
};
use crate::graph::{lemma_succs_are_targets, succs, undirected_degree, Graph};
use crate::order::{sort_strings, sorted_of};
use vstd::prelude::*;

verus! {

/// Errors of the hashing pipeline.
#[derive(Debug, PartialEq, Eq, Structural, Clone, Copy)]
pub enum WlError {
    /// A referenced node's current label was missing from the label table;
    /// carries the node whose label was not found.
    LabelLookupFailure(usize),
    /// The requested digest byte length is unsupported by the hash primitive.
    InvalidDigestSize,
}

/// Compresses an arbitrary label string into a hex digest of
/// `2 * digest_size` characters.
pub fn hash_label(label: &str, digest_size: usize) -> (r: Result<String, WlError>)
    ensures
        match r {
            Ok(h) => digest_size <= MAX_DIGEST_SIZE && h@ == digest_spec(
                label@,
                digest_size as nat,
            ) && h@.len() == 2 * digest_size,
            Err(e) => digest_size > MAX_DIGEST_SIZE && e == WlError::InvalidDigestSize,
        },
{
    let bytes = label.as_bytes();
    match blake2b_var_digest(bytes, digest_size) {
        Some(d) => {
            proof {
                lemma_hex_of_len(d@);
            }
            Ok(hex_encode(&d))
        },
        None => Err(WlError::InvalidDigestSize),
    }
}

/// The initial label table: the node's attribute value when an attribute
/// name is supplied, else the decimal string of its undirected degree.
pub open spec fn init_labels_spec(g: Graph, use_attr: bool) -> Seq<Seq<char>> {
    Seq::new(
        g.attrs@.len(),
        |i: int|
            if use_attr {
                g.attrs@[i]@
            } else {
                dec_of(undirected_degree(g.edges@, i))
            },
    )
}

fn node_degree(graph: &Graph, v: usize) -> (d: usize)
    ensures
        d == undirected_degree(graph.edges@, v as int),
{
    let m = graph.edges.len();
    let mut d: usize = 0;
    let mut j: usize = 0;
    proof {
        assert(graph.edges@.take(0) =~= Seq::<(usize, usize)>::empty());
    }
    while j < m
        invariant
            j <= m,
            m == graph.edges@.len(),
            d == undirected_degree(graph.edges@.take(j as int), v as int),
            d <= j,
        decreases m - j,
    {
        let e = graph.edges[j];
        proof {
            assert(graph.edges@.take(j + 1).drop_last() =~= graph.edges@.take(j as int));
            assert(graph.edges@.take(j + 1).last() == graph.edges@[j as int]);
        }
        if e.0 == v || e.1 == v {
            d = d + 1;
        }
        j += 1;
    }
    proof {
        assert(graph.edges@.take(m as int) =~= graph.edges@);
    }
    d
}

/// Produces the initial label table: one label per node, the attribute value
/// verbatim when `node_attr` is supplied, else the decimal undirected degree.
pub fn init_node_labels(graph: &Graph, node_attr: Option<&str>) -> (r: Vec<String>)
    ensures
        r.deep_view() == init_labels_spec(*graph, node_attr is Some),
        r@.len() == graph.attrs@.len(),
{
    let ghost goal = init_labels_spec(*graph, node_attr is Some);
    let n = graph.node_count();
    let mut out: Vec<String> = Vec::new();
    let mut i: usize = 0;
    while i < n
        invariant
            i <= n,
            n == graph.attrs@.len(),
            goal == init_labels_spec(*graph, node_attr is Some),
            goal.len() == n,
            out.deep_view() == goal.take(i as int),
            out@.len() == i,
        decreases n - i,
    {
        let ghost pre = out.deep_view();
        match node_attr {
            Some(_) => {
                let a = graph.attrs[i].clone();
                out.push(a);
            },
            None => {
                let d = node_degree(graph, i);
                let mut s = String::new();
                push_decimal(d, &mut s);
                out.push(s);
            },
        }
        proof {
            assert(out.deep_view() =~= pre.push(goal[i as int]));
            assert(out.deep_view() =~= goal.take(i + 1));
        }
        i += 1;
    }
    proof {
        assert(goal.take(n as int) =~= goal);
    }
    out
}

/// The labels of the successors of `v`, in edge order.
pub open spec fn succ_labels(g: Graph, v: int, labels: Seq<Seq<char>>) -> Seq<Seq<char>> {
    succs(g.edges@, v).map_values(|t: usize| labels[t as int])
}

/// The aggregated neighborhood string of `v`: its own current label followed
/// by its successors' current labels in lexicographic order.
pub open spec fn agg_spec(g: Graph, v: int, labels: Seq<Seq<char>>) -> Seq<char> {
    labels[v] + concat_all(sorted_of(succ_labels(g, v, labels)))
}

/// The label table covers `v`: it holds a label for `v` and for each of its
/// successors.
pub open spec fn table_covers(g: Graph, v: int, labels: Seq<Seq<char>>) -> bool {
    v < labels.len() && forall|j: int|
        0 <= j < succs(g.edges@, v).len() ==> (#[trigger] succs(g.edges@, v)[j] as int)
            < labels.len()
}

/// The first successor in enumeration order whose label is missing.
pub open spec fn first_missing(ts: Seq<usize>, bound: int) -> Option<usize>
    decreases ts.len(),
{
    if ts.len() == 0 {
        None
    } else if ts[0] as int >= bound {
        Some(ts[0])
    } else {
        first_missing(ts.drop_first(), bound)
    }
}

/// The node reported when the table does not cover `v`: the first successor
/// with no label, else `v` itself.
pub open spec fn missing_label_node(g: Graph, v: usize, labels: Seq<Seq<char>>) -> usize {
    match first_missing(succs(g.edges@, v as int), labels.len() as int) {
        Some(t) => t,
        None => v,
    }
}

proof fn lemma_first_missing_none(ts: Seq<usize>, bound: int)
    ensures
        (first_missing(ts, bound) is None) <==> (forall|j: int|
            0 <= j < ts.len() ==> (#[trigger] ts[j] as int) < bound),
    decreases ts.len(),
{
    if ts.len() > 0 {
        lemma_first_missing_none(ts.drop_first(), bound);
        if (ts[0] as int) < bound {
            if (first_missing(ts, bound) is None) {
                assert forall|j: int| 0 <= j < ts.len() implies (#[trigger] ts[j] as int)
                    < bound by {
                    if j > 0 {
                        assert(ts[j] == ts.drop_first()[j - 1]);
                    }
                }
            } else {
                assert(exists|j: int|
                    0 <= j < ts.drop_first().len() && (#[trigger] ts.drop_first()[j] as int)
                        >= bound);
                let j0 = choose|j: int|
                    0 <= j < ts.drop_first().len() && (#[trigger] ts.drop_first()[j] as int)
                        >= bound;
                assert(ts[j0 + 1] == ts.drop_first()[j0]);
            }
        }
    }
}

/// Builds the aggregated string for `node` against the current label table,
/// failing with the missing node if the table does not cover `node`.
pub fn neighborhood_aggregate(graph: &Graph, node: usize, node_labels: &Vec<String>) -> (r: Result<
    String,
    WlError,
>)
    ensures
        match r {
            Ok(s) => table_covers(*graph, node as int, node_labels.deep_view()) && s@ == agg_spec(
                *graph,
                node as int,
                node_labels.deep_view(),
            ),
            Err(e) => !table_covers(*graph, node as int, node_labels.deep_view()) && e
                == WlError::LabelLookupFailure(
                missing_label_node(*graph, node, node_labels.deep_view()),
            ),
        },
{
    let ghost full = node_labels.deep_view();
    let ghost bound = full.len() as int;
    let m = graph.edges.len();
    let mut ts: Vec<usize> = Vec::new();
    let mut j: usize = 0;
    proof {
        assert(graph.edges@.take(0) =~= Seq::<(usize, usize)>::empty());
        assert(ts@ =~= succs(graph.edges@.take(0), node as int));
    }
    while j < m
        invariant
            j <= m,
            m == graph.edges@.len(),
            ts@ == succs(graph.edges@.take(j as int), node as int),
        decreases m - j,
    {
        let e = graph.edges[j];
        proof {
            assert(graph.edges@.take(j + 1).drop_last() =~= graph.edges@.take(j as int));
            assert(graph.edges@.take(j + 1).last() == graph.edges@[j as int]);
        }
        if e.0 == node {
            ts.push(e.1);
        }
        j += 1;
    }
    proof {
        assert(graph.edges@.take(m as int) =~= graph.edges@);
    }
    let ghost targets = succs(graph.edges@, node as int);
    let nt = ts.len();
    let mut lbls: Vec<String> = Vec::new();
    let mut k: usize = 0;
    proof {
        assert(targets.skip(0) =~= targets);
        assert(lbls.deep_view() =~= targets.take(0).map_values(|t: usize| full[t as int]));
    }
    while k < nt
        invariant
            k <= nt,
            nt == targets.len(),
            ts@ == targets,
            targets == succs(graph.edges@, node as int),
            full == node_labels.deep_view(),
            bound == full.len() as int,
            forall|q: int| 0 <= q < k ==> (#[trigger] targets[q] as int) < bound,
            first_missing(targets, bound) == first_missing(targets.skip(k as int), bound),
            lbls.deep_view() == targets.take(k as int).map_values(|t: usize| full[t as int]),
        decreases nt - k,
    {
        let t = ts[k];
        proof {
            assert(targets.skip(k as int)[0] == targets[k as int]);
        }
        if t >= node_labels.len() {
            proof {
                assert(full.len() == node_labels@.len());
                assert((t as int) >= bound);
                assert(targets[k as int] == t);
                assert(first_missing(targets.skip(k as int), bound) == Some(t));
                assert(first_missing(targets, bound) == Some(t));
                assert((succs(graph.edges@, node as int)[k as int] as int) >= bound);
                assert(!(forall|q: int|
                    0 <= q < succs(graph.edges@, node as int).len() ==> (#[trigger] succs(
                        graph.edges@,
                        node as int,
                    )[q] as int) < full.len()));
                assert(!table_covers(*graph, node as int, full));
                assert(missing_label_node(*graph, node, full) == t);
            }
            return Err(WlError::LabelLookupFailure(t));
        }
        let ghost pre = lbls.deep_view();
        let lab = node_labels[t].clone();
        lbls.push(lab);
        proof {
            assert(targets.skip(k as int).drop_first() =~= targets.skip(k + 1));
            assert(targets.take(k + 1).drop_last() =~= targets.take(k as int));
            assert(lbls.deep_view() =~= pre.push(full[t as int]));
            assert(lbls.deep_view() =~= targets.take(k + 1).map_values(
                |t: usize| full[t as int],
            ));
        }
        k += 1;
    }
    proof {
        assert(targets.skip(nt as int) =~= Seq::<usize>::empty());
        lemma_first_missing_none(targets, bound);
    }
    if node >= node_labels.len() {
        return Err(WlError::LabelLookupFailure(node));
    }
    proof {
        assert(table_covers(*graph, node as int, full));
        assert(targets.take(nt as int) =~= targets);
    }
    let sorted = sort_strings(&lbls);
    let ghost sv = sorted.deep_view();
    let ns = sorted.len();
    let mut s = node_labels[node].clone();
    let mut p: usize = 0;
    proof {
        assert(sv.take(0) =~= Seq::<Seq<char>>::empty());
        assert(s@ =~= full[node as int] + concat_all(sv.take(0)));
    }
    while p < ns
        invariant
            p <= ns,
            ns == sv.len(),
            sv == sorted.deep_view(),
            ns == sorted@.len(),
            full == node_labels.deep_view(),
            s@ == full[node as int] + concat_all(sv.take(p as int)),
        decreases ns - p,
    {
        s.append(sorted[p].as_str());
        proof {
            assert(sv.take(p + 1).drop_last() =~= sv.take(p as int));
            assert(sv.take(p + 1).last() == sv[p as int]);
            assert(sorted@[p as int]@ == sv[p as int]);
            assert(s@ =~= full[node as int] + concat_all(sv.take(p + 1)));
        }
        p += 1;
    }
    proof {
        assert(sv.take(ns as int) =~= sv);
        assert(sv == sorted_of(succ_labels(*graph, node as int, full)));
    }
    Ok(s)
}

/// The label table after one relabeling round at digest size `size`.
pub open spec fn step_spec(g: Graph, labels: Seq<Seq<char>>, size: nat) -> Seq<Seq<char>> {
    Seq::new(g.attrs@.len(), |i: int| digest_spec(agg_spec(g, i, labels), size))
}

/// Performs one relabeling round: every node's new label is the compressed
/// aggregation of its neighborhood against the previous table.
pub fn weisfeiler_lehman_step(graph: &Graph, labels: &Vec<String>, digest_size: usize) -> (r:
    Result<Vec<String>, WlError>)
    requires
        graph.wf(),
        labels@.len() == graph.attrs@.len(),
    ensures
        match r {
            Ok(nl) => (digest_size <= MAX_DIGEST_SIZE || graph.attrs@.len() == 0)
                && nl.deep_view() == step_spec(*graph, labels.deep_view(), digest_size as nat)
                && nl@.len() == graph.attrs@.len() && (forall|i: int|
                0 <= i < nl.deep_view().len() ==> (#[trigger] nl.deep_view()[i]).len() == 2
                    * digest_size),
            Err(e) => digest_size > MAX_DIGEST_SIZE && graph.attrs@.len() > 0 && e
                == WlError::InvalidDigestSize,
        },
{
    let ghost prev = labels.deep_view();
    let ghost goal = step_spec(*graph, prev, digest_size as nat);
    let n = graph.node_count();
    let mut out: Vec<String> = Vec::new();
    let mut i: usize = 0;
    proof {
        assert(out.deep_view() =~= goal.take(0));
    }
    while i < n
        invariant
            i <= n,
            n == graph.attrs@.len(),
            graph.wf(),
            labels@.len() == n,
            prev == labels.deep_view(),
            goal == step_spec(*graph, prev, digest_size as nat),
            goal.len() == n,
            out.deep_view() == goal.take(i as int),
            out@.len() == i,
            i > 0 ==> digest_size <= MAX_DIGEST_SIZE,
            forall|q: int|
                0 <= q < out.deep_view().len() ==> (#[trigger] out.deep_view()[q]).len() == 2
                    * digest_size,
        decreases n - i,
    {
        proof {
            lemma_succs_are_targets(graph.edges@, i as int);
            let targets = succs(graph.edges@, i as int);
            assert forall|q: int| 0 <= q < targets.len() implies (#[trigger] targets[q] as int)
                < prev.len() by {
                let e0 = choose|e: int|
                    0 <= e < graph.edges@.len() && #[trigger] targets[q] == graph.edges@[e].1;
                assert(graph.edges@[e0].1 < graph.attrs@.len());
            }
            assert(table_covers(*graph, i as int, prev));
        }
        let agg = match neighborhood_aggregate(graph, i, labels) {
            Ok(a) => a,
            // The table covers every node here, so aggregation cannot fail.
            Err(e) => {
                return Err(e);
            },
        };
        match hash_label(agg.as_str(), digest_size) {
            Ok(h) => {
                let ghost pre = out.deep_view();
                proof {
                    assert(h@ == goal[i as int]);
                }
                out.push(h);
                proof {
                    assert(out.deep_view() =~= pre.push(goal[i as int]));
                    assert(out.deep_view() =~= goal.take(i + 1));
                }
            },
            Err(e) => {
                return Err(e);
            },
        }
        i += 1;
    }
    proof {
        assert(goal.take(n as int) =~= goal);
    }
    Ok(out)
}

/// The label table after `k` rounds.
pub open spec fn labels_after(g: Graph, use_attr: bool, size: nat, k: nat) -> Seq<Seq<char>>
    decreases k,
{
    if k == 0 {
        init_labels_spec(g, use_attr)
    } else {
        step_spec(g, labels_after(g, use_attr, size, (k - 1) as nat), size)
    }
}

/// The accumulated (label, count) pairs over the first `k` rounds:
/// round-major, lexicographically sorted within each round.
pub open spec fn pairs_after(g: Graph, use_attr: bool, size: nat, k: nat) -> Seq<(Seq<char>, nat)>
    decreases k,
{
    if k == 0 {
        Seq::empty()
    } else {
        pairs_after(g, use_attr, size, (k - 1) as nat) + counts_of(
            labels_after(g, use_attr, size, k),
        )
    }
}

/// The final graph digest: the serialized accumulated pairs of `k` rounds,
/// compressed once more at digest size `size`.
pub open spec fn wl_hash_spec(g: Graph, use_attr: bool, k: nat, size: nat) -> Seq<char> {
    digest_spec(render_pairs(pairs_after(g, use_attr, size, k)), size)
}

/// Computes the Weisfeiler-Lehman hash of the graph: `iterations` rounds of
/// aggregate-then-compress, then one digest over the accumulated per-round
/// label counts. Fails exactly when `digest_size` is unsupported.
pub fn weisfeiler_lehman_graph_hash(
    graph: &Graph,
    node_attr: Option<&str>,
    iterations: usize,
    digest_size: usize,
) -> (r: Result<String, WlError>)
    requires
        graph.wf(),
    ensures
        match r {
            Ok(h) => digest_size <= MAX_DIGEST_SIZE && h@ == wl_hash_spec(
                *graph,
                node_attr is Some,
                iterations as nat,
                digest_size as nat,
            ) && h@.len() == 2 * digest_size,
            Err(e) => digest_size > MAX_DIGEST_SIZE && e == WlError::InvalidDigestSize,
        },
{
    let ghost ua = node_attr is Some;
    let ghost size = digest_size as nat;
    let mut labels = init_node_labels(graph, node_attr);
    let mut pairs: Vec<(String, usize)> = Vec::new();
    let mut it: usize = 0;
    proof {
        assert(pairs_view(pairs@) =~= pairs_after(*graph, ua, size, 0));
    }
    while it < iterations
        invariant
            it <= iterations,
            graph.wf(),
            ua == (node_attr is Some),
            size == digest_size as nat,
            labels@.len() == graph.attrs@.len(),
            labels.deep_view() == labels_after(*graph, ua, size, it as nat),
            pairs_view(pairs@) == pairs_after(*graph, ua, size, it as nat),
        decreases iterations - it,
    {
        match weisfeiler_lehman_step(graph, &labels, digest_size) {
            Ok(nl) => {
                labels = nl;
            },
            Err(e) => {
                return Err(e);
            },
        }
        let mut counts = label_counts(&labels);
        let ghost pre = pairs@;
        let ghost cv = counts@;
        pairs.append(&mut counts);
        proof {
            assert(pairs@ == pre + cv);
            assert(pairs_view(pairs@) =~= pairs_view(pre) + pairs_view(cv));
            assert(labels.deep_view() == labels_after(*graph, ua, size, (it + 1) as nat));
            assert(pairs_view(pairs@) =~= pairs_after(*graph, ua, size, (it + 1) as nat));
        }
        it += 1;
    }
    let final_label = render_counts(&pairs);
    hash_label(final_label.as_str(), digest_size)
}

} // verus!
