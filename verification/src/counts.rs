//! Per-round label statistics: decimal rendering, the sorted label-count
//! multiset of a round, and its canonical textual serialization.
use crate::order::{
    lemma_lex_antisym, lemma_lex_total_ordering, lex_leq, lex_leq_fn, sort_strings, sorted_of,
};
use vstd::prelude::*;
use vstd::relations::sorted_by;

verus! {

/// The decimal digit character for a value below 10.
pub open spec fn digit_char(d: nat) -> char {
    if d == 0 {
        '0'
    } else if d == 1 {
        '1'
    } else if d == 2 {
        '2'
    } else if d == 3 {
        '3'
    } else if d == 4 {
        '4'
    } else if d == 5 {
        '5'
    } else if d == 6 {
        '6'
    } else if d == 7 {
        '7'
    } else if d == 8 {
        '8'
    } else {
        '9'
    }
}

/// The decimal string of `n`, most significant digit first, no leading zeros
/// (a single zero for `n == 0`).
pub open spec fn dec_of(n: nat) -> Seq<char>
    decreases n,
{
    if n < 10 {
        seq![digit_char(n)]
    } else {
        dec_of(n / 10) + seq![digit_char(n % 10)]
    }
}

fn digit_str(d: usize) -> (r: &'static str)
    requires
        d < 10,
    ensures
        r@ == seq![digit_char(d as nat)],
{
    proof {
        reveal_strlit("0");
        reveal_strlit("1");
        reveal_strlit("2");
        reveal_strlit("3");
        reveal_strlit("4");
        reveal_strlit("5");
        reveal_strlit("6");
        reveal_strlit("7");
        reveal_strlit("8");
        reveal_strlit("9");
        assert("0"@ =~= seq![digit_char(0)]);
        assert("1"@ =~= seq![digit_char(1)]);
        assert("2"@ =~= seq![digit_char(2)]);
        assert("3"@ =~= seq![digit_char(3)]);
        assert("4"@ =~= seq![digit_char(4)]);
        assert("5"@ =~= seq![digit_char(5)]);
        assert("6"@ =~= seq![digit_char(6)]);
        assert("7"@ =~= seq![digit_char(7)]);
        assert("8"@ =~= seq![digit_char(8)]);
        assert("9"@ =~= seq![digit_char(9)]);
    }
    match d {
        0 => "0",
        1 => "1",
        2 => "2",
        3 => "3",
        4 => "4",
        5 => "5",
        6 => "6",
        7 => "7",
        8 => "8",
        _ => "9",
    }
}

/// Appends the decimal rendering of `n` to `out`.
pub fn push_decimal(n: usize, out: &mut String)
    ensures
        final(out)@ == old(out)@ + dec_of(n as nat),
    decreases n,
{
    if n >= 10 {
        push_decimal(n / 10, out);
    }
    out.append(digit_str(n % 10));
    proof {
        assert(out@ =~= old(out)@ + dec_of(n as nat));
    }
}

/// The concatenation of a list of label strings, in order.
pub open spec fn concat_all(s: Seq<Seq<char>>) -> Seq<char>
    decreases s.len(),
{
    if s.len() == 0 {
        Seq::empty()
    } else {
        concat_all(s.drop_last()) + s.last()
    }
}

/// The run-length grouping of a label list: each maximal run of equal
/// adjacent labels becomes one (label, run length) pair, in order.
pub open spec fn group_runs(s: Seq<Seq<char>>) -> Seq<(Seq<char>, nat)>
    decreases s.len(),
{
    if s.len() == 0 {
        Seq::empty()
    } else {
        let rest = group_runs(s.drop_first());
        if rest.len() > 0 && rest[0].0 == s[0] {
            seq![(s[0], (rest[0].1 + 1) as nat)] + rest.drop_first()
        } else {
            seq![(s[0], 1nat)] + rest
        }
    }
}

/// The label-count multiset of one round: distinct labels in lexicographic
/// order, each with its number of occurrences.
pub open spec fn counts_of(labels: Seq<Seq<char>>) -> Seq<(Seq<char>, nat)> {
    group_runs(sorted_of(labels))
}

/// The view of an accumulated (label, count) list.
pub open spec fn pairs_view(s: Seq<(String, usize)>) -> Seq<(Seq<char>, nat)> {
    s.map_values(|p: (String, usize)| (p.0@, p.1 as nat))
}

proof fn lemma_group_runs_first_le(s: Seq<Seq<char>>)
    ensures
        s.len() > 0 ==> group_runs(s).len() > 0 && group_runs(s)[0].1 <= s.len(),
    decreases s.len(),
{
    if s.len() > 0 {
        lemma_group_runs_first_le(s.drop_first());
        let rest = group_runs(s.drop_first());
        if rest.len() > 0 && rest[0].0 == s[0] {
            assert(group_runs(s) == seq![(s[0], (rest[0].1 + 1) as nat)] + rest.drop_first());
            assert(group_runs(s)[0].1 == rest[0].1 + 1);
        } else {
            assert(group_runs(s) == seq![(s[0], 1nat)] + rest);
            assert(group_runs(s)[0].1 == 1);
        }
    }
}

/// Computes the sorted label-count pairs of one round's label table.
pub fn label_counts(labels: &Vec<String>) -> (r: Vec<(String, usize)>)
    ensures
        pairs_view(r@) == counts_of(labels.deep_view()),
{
    let sorted = sort_strings(labels);
    let ghost s = sorted.deep_view();
    let n = sorted.len();
    let mut out: Vec<(String, usize)> = Vec::new();
    let mut i: usize = n;
    proof {
        assert(s.skip(n as int) =~= Seq::<Seq<char>>::empty());
        assert(pairs_view(out@) =~= group_runs(s.skip(n as int)));
    }
    while i > 0
        invariant
            i <= n,
            n == s.len(),
            s == sorted.deep_view(),
            n == sorted@.len(),
            pairs_view(out@) == group_runs(s.skip(i as int)),
            out@.len() > 0 ==> out@[0].1 <= n - i,
        decreases i,
    {
        let ghost pre = out@;
        let ghost tail = s.skip(i as int);
        let ghost cur = s.skip(i - 1);
        proof {
            assert(cur.drop_first() =~= tail);
            assert(cur[0] == s[i - 1]);
            assert(sorted.deep_view()[i - 1] == sorted@[i - 1]@);
            lemma_group_runs_first_le(tail);
        }
        let same = out.len() > 0 && out[0].0 == sorted[i - 1];
        if same {
            let (lab, c) = out.remove(0);
            out.insert(0, (lab, c + 1));
            proof {
                assert(out@ =~= seq![(lab, (c + 1) as usize)] + pre.drop_first());
                assert(pairs_view(out@) =~= seq![(lab@, (c + 1) as nat)] + pairs_view(
                    pre,
                ).drop_first());
                assert(lab@ == cur[0]);
                assert(pairs_view(out@) =~= group_runs(cur));
            }
        } else {
            let x = sorted[i - 1].clone();
            out.insert(0, (x, 1));
            proof {
                assert(out@ =~= seq![(x, 1usize)] + pre);
                assert(pairs_view(out@) =~= seq![(x@, 1nat)] + pairs_view(pre));
                assert(pairs_view(out@) =~= group_runs(cur));
            }
        }
        i -= 1;
    }
    proof {
        assert(s.skip(0) =~= s);
    }
    out
}

proof fn lemma_group_runs_first_label(s: Seq<Seq<char>>)
    ensures
        s.len() > 0 ==> group_runs(s).len() > 0 && group_runs(s)[0].0 == s[0],
{
}

proof fn lemma_group_runs_sorted(s: Seq<Seq<char>>)
    requires
        sorted_by(s, lex_leq_fn()),
    ensures
        forall|a: int, b: int|
            0 <= a < b < group_runs(s).len() ==> lex_leq(
                #[trigger] group_runs(s)[a].0,
                #[trigger] group_runs(s)[b].0,
            ) && group_runs(s)[a].0 != group_runs(s)[b].0,
        forall|a: int|
            0 <= a < group_runs(s).len() ==> (#[trigger] group_runs(s)[a]).1
                == s.to_multiset().count(group_runs(s)[a].0),
        forall|x: Seq<char>|
            s.contains(x) <==> (exists|a: int|
                0 <= a < group_runs(s).len() && (#[trigger] group_runs(s)[a]).0 == x),
    decreases s.len(),
{
    broadcast use vstd::seq_lib::group_to_multiset_ensures;
    broadcast use vstd::multiset::group_multiset_axioms;

    if s.len() == 0 {
        assert(s.to_multiset() =~= vstd::multiset::Multiset::<Seq<char>>::empty());
    } else {
        let rest = s.drop_first();
        let g = group_runs(s);
        assert(sorted_by(rest, lex_leq_fn())) by {
            assert(forall|i: int| 0 <= i < rest.len() ==> rest[i] == s[i + 1]);
        }
        lemma_group_runs_sorted(rest);
        let r = group_runs(rest);
        lemma_group_runs_first_label(rest);
        assert(s.remove(0) =~= rest);
        assert(rest.to_multiset() =~= s.to_multiset().remove(s[0]));
        assert(s.contains(s[0]));
        assert(s.to_multiset().count(s[0]) > 0);
        // Each count over `rest` differs from the count over `s` only at s[0].
        assert forall|x: Seq<char>|
            s.to_multiset().count(x) == rest.to_multiset().count(x) + (if x == s[0] {
                1int
            } else {
                0int
            }) by {}
        // A later occurrence of s[0] forces it to already head the grouped rest.
        if rest.contains(s[0]) {
            let w = choose|w: int| 0 <= w < rest.len() && rest[w] == s[0];
            assert(rest[w] == s[w + 1]);
            assert(lex_leq(s[0], s[1]) && lex_leq(s[1], s[w + 1]) || w == 0) by {
                if w > 0 {
                    assert(lex_leq_fn()(s[0], s[1]));
                    assert(lex_leq_fn()(s[1], s[w + 1]));
                }
            }
            assert(rest[0] == s[0]) by {
                if w > 0 {
                    lemma_lex_antisym(s[1], s[w + 1]);
                }
            }
            assert(r.len() > 0 && r[0].0 == s[0]);
        }
        if r.len() > 0 && r[0].0 == s[0] {
            // Merge: the leading run of `rest` grows by one.
            assert(g =~= seq![(s[0], (r[0].1 + 1) as nat)] + r.drop_first());
            assert(g[0].1 == s.to_multiset().count(s[0]));
            assert forall|a: int| 0 < a < g.len() implies (#[trigger] g[a]).1
                == s.to_multiset().count(g[a].0) by {
                assert(g[a] == r[a]);
                assert(lex_leq(r[0].0, r[a].0) && r[0].0 != r[a].0);
            }
            assert forall|x: Seq<char>|
                s.contains(x) <==> (exists|a: int| 0 <= a < g.len() && (#[trigger] g[a]).0
                    == x) by {
                if s.contains(x) {
                    let w = choose|w: int| 0 <= w < s.len() && s[w] == x;
                    if w == 0 {
                        assert(g[0].0 == x);
                    } else {
                        assert(rest[w - 1] == x);
                        assert(rest.contains(x));
                        let a0 = choose|a: int| 0 <= a < r.len() && (#[trigger] r[a]).0 == x;
                        if a0 == 0 {
                            assert(g[0].0 == x);
                        } else {
                            assert(g[a0] == r[a0]);
                        }
                    }
                }
                if exists|a: int| 0 <= a < g.len() && (#[trigger] g[a]).0 == x {
                    let a0 = choose|a: int| 0 <= a < g.len() && (#[trigger] g[a]).0 == x;
                    if a0 == 0 {
                        assert(s[0] == x);
                    } else {
                        assert(g[a0] == r[a0]);
                        assert(rest.contains(x));
                        let w = choose|w: int| 0 <= w < rest.len() && rest[w] == x;
                        assert(s[w + 1] == x);
                    }
                }
            }
        } else {
            // New run: s[0] does not occur in the tail.
            assert(!rest.contains(s[0]));
            assert(rest.to_multiset().count(s[0]) == 0);
            assert(g =~= seq![(s[0], 1nat)] + r);
            assert(g[0].1 == s.to_multiset().count(s[0]));
            // Every grouped label of the tail is an element of the tail,
            // hence strictly above s[0].
            assert forall|b: int| 0 < b < g.len() implies lex_leq(g[0].0, (#[trigger] g[b]).0)
                && g[0].0 != g[b].0 by {
                assert(g[b] == r[b - 1]);
                assert(rest.contains(r[b - 1].0)) by {
                    assert(exists|a: int| 0 <= a < r.len() && (#[trigger] r[a]).0 == r[b - 1].0);
                }
                let w = choose|w: int| 0 <= w < rest.len() && rest[w] == r[b - 1].0;
                assert(rest[w] == s[w + 1]);
                assert(lex_leq_fn()(s[0], s[w + 1]));
            }
            assert forall|a: int| 0 < a < g.len() implies (#[trigger] g[a]).1
                == s.to_multiset().count(g[a].0) by {
                assert(g[a] == r[a - 1]);
                assert(g[a].0 != s[0]) by {
                    assert(lex_leq(g[0].0, g[a].0) && g[0].0 != g[a].0);
                }
            }
            assert forall|x: Seq<char>|
                s.contains(x) <==> (exists|a: int| 0 <= a < g.len() && (#[trigger] g[a]).0
                    == x) by {
                if s.contains(x) {
                    let w = choose|w: int| 0 <= w < s.len() && s[w] == x;
                    if w == 0 {
                        assert(g[0].0 == x);
                    } else {
                        assert(rest[w - 1] == x);
                        assert(rest.contains(x));
                        let a0 = choose|a: int| 0 <= a < r.len() && (#[trigger] r[a]).0 == x;
                        assert(g[a0 + 1] == r[a0]);
                    }
                }
                if exists|a: int| 0 <= a < g.len() && (#[trigger] g[a]).0 == x {
                    let a0 = choose|a: int| 0 <= a < g.len() && (#[trigger] g[a]).0 == x;
                    if a0 == 0 {
                        assert(s[0] == x);
                    } else {
                        assert(g[a0] == r[a0 - 1]);
                        assert(rest.contains(x));
                        let w = choose|w: int| 0 <= w < rest.len() && rest[w] == x;
                        assert(s[w + 1] == x);
                    }
                }
            }
        }
    }
}

/// The label-count multiset of a round lists each distinct label of the
/// round exactly once, in strictly increasing lexicographic order, paired
/// with its number of occurrences in the round's label table.
pub proof fn lemma_counts_of_correct(labels: Seq<Seq<char>>)
    ensures
        forall|a: int, b: int|
            0 <= a < b < counts_of(labels).len() ==> lex_leq(
                #[trigger] counts_of(labels)[a].0,
                #[trigger] counts_of(labels)[b].0,
            ) && counts_of(labels)[a].0 != counts_of(labels)[b].0,
        forall|a: int|
            0 <= a < counts_of(labels).len() ==> (#[trigger] counts_of(labels)[a]).1
                == labels.to_multiset().count(counts_of(labels)[a].0),
        forall|x: Seq<char>|
            labels.contains(x) <==> (exists|a: int|
                0 <= a < counts_of(labels).len() && (#[trigger] counts_of(labels)[a]).0 == x),
{
    broadcast use vstd::seq_lib::group_to_multiset_ensures;

    lemma_lex_total_ordering();
    labels.lemma_sort_by_ensures(lex_leq_fn());
    let s = sorted_of(labels);
    lemma_group_runs_sorted(s);
    assert forall|x: Seq<char>| labels.contains(x) <==> s.contains(x) by {
        assert(labels.contains(x) <==> labels.to_multiset().count(x) > 0);
        assert(s.contains(x) <==> s.to_multiset().count(x) > 0);
    }
    assert forall|x: Seq<char>| labels.contains(x) implies (exists|a: int|
        0 <= a < counts_of(labels).len() && (#[trigger] counts_of(labels)[a]).0 == x) by {
        assert(s.contains(x));
        let a0 = choose|a: int| 0 <= a < group_runs(s).len() && (#[trigger] group_runs(s)[a]).0
            == x;
        assert(counts_of(labels)[a0].0 == x);
    }
    assert forall|x: Seq<char>|
        (exists|a: int| 0 <= a < counts_of(labels).len() && (#[trigger] counts_of(labels)[a]).0
            == x) implies labels.contains(x) by {
        let a0 = choose|a: int|
            0 <= a < counts_of(labels).len() && (#[trigger] counts_of(labels)[a]).0 == x;
        assert(group_runs(s)[a0].0 == x);
        assert(exists|a: int| 0 <= a < group_runs(s).len() && (#[trigger] group_runs(s)[a]).0 == x);
        assert(s.contains(x));
    }
}

/// The canonical textual rendering of one (label, count) pair.
pub open spec fn render_pair(p: (Seq<char>, nat)) -> Seq<char> {
    seq!['('] + p.0 + seq![','] + dec_of(p.1) + seq![')']
}

/// The canonical serialization of the accumulated pairs, in order.
pub open spec fn render_pairs(ps: Seq<(Seq<char>, nat)>) -> Seq<char>
    decreases ps.len(),
{
    if ps.len() == 0 {
        Seq::empty()
    } else {
        render_pairs(ps.drop_last()) + render_pair(ps.last())
    }
}

/// Serializes the accumulated (label, count) pairs into one canonical string.
pub fn render_counts(pairs: &Vec<(String, usize)>) -> (r: String)
    ensures
        r@ == render_pairs(pairs_view(pairs@)),
{
    let ghost pv = pairs_view(pairs@);
    let mut out = String::new();
    let mut i: usize = 0;
    proof {
        assert(pv.take(0) =~= Seq::<(Seq<char>, nat)>::empty());
        assert(out@ =~= render_pairs(pv.take(0)));
    }
    while i < pairs.len()
        invariant
            i <= pairs@.len(),
            pv == pairs_view(pairs@),
            pv.len() == pairs@.len(),
            out@ == render_pairs(pv.take(i as int)),
        decreases pairs@.len() - i,
    {
        out.append("(");
        out.append(pairs[i].0.as_str());
        out.append(",");
        push_decimal(pairs[i].1, &mut out);
        out.append(")");
        proof {
            reveal_strlit("(");
            reveal_strlit(",");
            reveal_strlit(")");
            assert(pv.take(i + 1).drop_last() =~= pv.take(i as int));
            assert(pv.take(i + 1).last() == pv[i as int]);
            assert(pv[i as int] == (pairs@[i as int].0@, pairs@[i as int].1 as nat));
            assert(out@ =~= render_pairs(pv.take(i + 1)));
        }
        i += 1;
    }
    proof {
        assert(pv.take(pairs@.len() as int) =~= pv);
    }
    out
}

} // verus!
