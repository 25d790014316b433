//! Lexicographic ordering on character sequences, and a verified sort of
//! label lists. Labels are compared by code point, which coincides with
//! `String`'s byte-wise ordering because UTF-8 preserves code-point order.
use vstd::prelude::*;
use vstd::relations::{sorted_by, total_ordering};
use vstd::seq_lib::lemma_multiset_commutative;
use vstd::seq_lib::lemma_sorted_unique;

verus! {

/// `a` is lexicographically at most `b`, comparing characters by code point.
pub open spec fn lex_leq(a: Seq<char>, b: Seq<char>) -> bool
    decreases a.len(),
{
    if a.len() == 0 {
        true
    } else if b.len() == 0 {
        false
    } else if a[0] != b[0] {
        (a[0] as u32) < (b[0] as u32)
    } else {
        lex_leq(a.drop_first(), b.drop_first())
    }
}

/// The ordering as a first-class relation, for `sort_by`.
pub open spec fn lex_leq_fn() -> spec_fn(Seq<char>, Seq<char>) -> bool {
    |a: Seq<char>, b: Seq<char>| lex_leq(a, b)
}

/// The unique lexicographically sorted permutation of `s`.
pub open spec fn sorted_of(s: Seq<Seq<char>>) -> Seq<Seq<char>> {
    s.sort_by(lex_leq_fn())
}

pub proof fn lemma_lex_refl(a: Seq<char>)
    ensures
        lex_leq(a, a),
    decreases a.len(),
{
    if a.len() > 0 {
        lemma_lex_refl(a.drop_first());
    }
}

pub proof fn lemma_lex_antisym(a: Seq<char>, b: Seq<char>)
    requires
        lex_leq(a, b),
        lex_leq(b, a),
    ensures
        a == b,
    decreases a.len(),
{
    if a.len() == 0 {
        assert(b.len() == 0);
        assert(a =~= b);
    } else {
        assert(b.len() > 0);
        assert(a[0] == b[0]);
        lemma_lex_antisym(a.drop_first(), b.drop_first());
        assert(a.drop_first() =~= b.drop_first());
        assert(a.len() == b.len());
        assert forall|i: int| 0 <= i < a.len() implies a[i] == b[i] by {
            if i > 0 {
                assert(a[i] == a.drop_first()[i - 1]);
                assert(b[i] == b.drop_first()[i - 1]);
            }
        }
        assert(a =~= b);
    }
}

pub proof fn lemma_lex_trans(a: Seq<char>, b: Seq<char>, c: Seq<char>)
    requires
        lex_leq(a, b),
        lex_leq(b, c),
    ensures
        lex_leq(a, c),
    decreases a.len(),
{
    if a.len() == 0 {
    } else {
        assert(b.len() > 0);
        assert(c.len() > 0);
        if a[0] == b[0] && b[0] == c[0] {
            lemma_lex_trans(a.drop_first(), b.drop_first(), c.drop_first());
        }
    }
}

pub proof fn lemma_lex_connected(a: Seq<char>, b: Seq<char>)
    ensures
        lex_leq(a, b) || lex_leq(b, a),
    decreases a.len(),
{
    if a.len() == 0 || b.len() == 0 {
    } else if a[0] == b[0] {
        lemma_lex_connected(a.drop_first(), b.drop_first());
    } else {
        vstd::utf8::char_u32_cast(a[0], a[0] as u32);
        vstd::utf8::char_u32_cast(b[0], b[0] as u32);
        assert((a[0] as u32) < (b[0] as u32) || (b[0] as u32) < (a[0] as u32));
    }
}

/// Code-point ordering of labels is a total ordering, so sorting by it
/// has a unique result.
pub proof fn lemma_lex_total_ordering()
    ensures
        total_ordering(lex_leq_fn()),
{
    let leq = lex_leq_fn();
    assert forall|a: Seq<char>| #[trigger] leq(a, a) by {
        lemma_lex_refl(a);
    }
    assert forall|a: Seq<char>, b: Seq<char>, c: Seq<char>|
        #[trigger] leq(a, b) && #[trigger] leq(b, c) implies leq(a, c) by {
        lemma_lex_trans(a, b, c);
    }
    assert forall|a: Seq<char>, b: Seq<char>|
        #[trigger] leq(a, b) && #[trigger] leq(b, a) implies a == b by {
        lemma_lex_antisym(a, b);
    }
    assert forall|a: Seq<char>, b: Seq<char>| #[trigger] leq(a, b) || #[trigger] leq(b, a) by {
        lemma_lex_connected(a, b);
    }
}

/// Sorting is a function of the multiset of labels alone: label lists that
/// are permutations of one another sort to the same sequence.
pub proof fn lemma_sorted_of_multiset(a: Seq<Seq<char>>, b: Seq<Seq<char>>)
    requires
        a.to_multiset() == b.to_multiset(),
    ensures
        sorted_of(a) == sorted_of(b),
{
    lemma_lex_total_ordering();
    a.lemma_sort_by_ensures(lex_leq_fn());
    b.lemma_sort_by_ensures(lex_leq_fn());
    lemma_sorted_unique(a.sort_by(lex_leq_fn()), b.sort_by(lex_leq_fn()), lex_leq_fn());
    assert(sorted_of(a) =~= sorted_of(b));
}

/// Compares two strings lexicographically by code point.
pub fn str_le(a: &str, b: &str) -> (r: bool)
    ensures
        r == lex_leq(a@, b@),
{
    let na = a.unicode_len();
    let nb = b.unicode_len();
    let mut i: usize = 0;
    proof {
        assert(a@.skip(0) =~= a@);
        assert(b@.skip(0) =~= b@);
    }
    loop
        invariant
            i <= na,
            i <= nb,
            na == a@.len(),
            nb == b@.len(),
            lex_leq(a@, b@) == lex_leq(a@.skip(i as int), b@.skip(i as int)),
        decreases na - i,
    {
        proof {
            assert(a@.skip(i as int).len() == na - i);
            assert(b@.skip(i as int).len() == nb - i);
        }
        if i == na {
            return true;
        }
        if i == nb {
            return false;
        }
        let ca = a.get_char(i);
        let cb = b.get_char(i);
        proof {
            assert(a@.skip(i as int)[0] == a@[i as int]);
            assert(b@.skip(i as int)[0] == b@[i as int]);
        }
        if ca != cb {
            return (ca as u32) < (cb as u32);
        }
        proof {
            assert(a@.skip(i as int).drop_first() =~= a@.skip(i as int + 1));
            assert(b@.skip(i as int).drop_first() =~= b@.skip(i as int + 1));
        }
        i += 1;
    }
}

proof fn lemma_insert_multiset(s: Seq<Seq<char>>, j: int, x: Seq<char>)
    requires
        0 <= j <= s.len(),
    ensures
        s.insert(j, x).to_multiset() =~= s.to_multiset().insert(x),
{
    broadcast use vstd::seq_lib::group_to_multiset_ensures;
    broadcast use vstd::multiset::group_multiset_axioms;

    let l = s.subrange(0, j);
    let r = s.subrange(j, s.len() as int);
    assert(s.insert(j, x) =~= l.push(x) + r);
    assert(s =~= l + r);
    lemma_multiset_commutative(l.push(x), r);
    lemma_multiset_commutative(l, r);
}

proof fn lemma_insert_sorted(s: Seq<Seq<char>>, j: int, x: Seq<char>)
    requires
        sorted_by(s, lex_leq_fn()),
        0 <= j <= s.len(),
        forall|k: int| 0 <= k < j ==> lex_leq(#[trigger] s[k], x),
        j < s.len() ==> !lex_leq(s[j], x),
    ensures
        sorted_by(s.insert(j, x), lex_leq_fn()),
{
    let leq = lex_leq_fn();
    let t = s.insert(j, x);
    if j < s.len() {
        lemma_lex_connected(s[j], x);
    }
    assert forall|m: int, n: int| 0 <= m < n < t.len() implies leq(t[m], t[n]) by {
        if m < j && n < j {
            assert(t[m] == s[m] && t[n] == s[n]);
        } else if m < j && n == j {
            assert(t[m] == s[m] && t[n] == x);
        } else if m < j && n > j {
            assert(t[m] == s[m] && t[n] == s[n - 1]);
        } else if m == j && n > j {
            assert(t[m] == x && t[n] == s[n - 1]);
            if j < s.len() {
                assert(lex_leq(x, s[j]));
                if n - 1 > j {
                    assert(leq(s[j], s[n - 1]));
                    lemma_lex_trans(x, s[j], s[n - 1]);
                } else {
                    assert(t[n] == s[j]);
                }
            }
        } else {
            assert(m > j && n > j);
            assert(t[m] == s[m - 1] && t[n] == s[n - 1]);
        }
    }
}

fn find_insert_pos(out: &Vec<String>, x: &String) -> (j: usize)
    ensures
        j <= out@.len(),
        forall|k: int| 0 <= k < j ==> lex_leq(#[trigger] out.deep_view()[k], x@),
        j < out@.len() ==> !lex_leq(out.deep_view()[j as int], x@),
{
    let mut j: usize = 0;
    while j < out.len()
        invariant
            j <= out@.len(),
            forall|k: int| 0 <= k < j ==> lex_leq(#[trigger] out.deep_view()[k], x@),
        decreases out@.len() - j,
    {
        if !str_le(out[j].as_str(), x.as_str()) {
            return j;
        }
        j += 1;
    }
    j
}

/// Sorts a list of labels lexicographically; the result is exactly the
/// sorted permutation `sorted_of` of the input.
pub fn sort_strings(v: &Vec<String>) -> (r: Vec<String>)
    ensures
        r.deep_view() == sorted_of(v.deep_view()),
{
    let ghost goal = v.deep_view();
    let mut out: Vec<String> = Vec::new();
    proof {
        assert(out.deep_view() =~= goal.take(0));
    }
    let mut i: usize = 0;
    while i < v.len()
        invariant
            i <= v@.len(),
            goal == v.deep_view(),
            sorted_by(out.deep_view(), lex_leq_fn()),
            out.deep_view().to_multiset() == goal.take(i as int).to_multiset(),
            out@.len() == i,
        decreases v@.len() - i,
    {
        let ghost pre = out.deep_view();
        let x: String = v[i].clone();
        let j = find_insert_pos(&out, &x);
        out.insert(j, x);
        proof {
            assert(out.deep_view() =~= pre.insert(j as int, x@));
            lemma_insert_sorted(pre, j as int, x@);
            lemma_insert_multiset(pre, j as int, x@);
            broadcast use vstd::seq_lib::group_to_multiset_ensures;

            assert(goal.take(i + 1).drop_last() =~= goal.take(i as int));
            assert(goal.take(i + 1) =~= goal.take(i as int).push(goal[i as int]));
            assert(x@ == goal[i as int]);
        }
        i += 1;
    }
    proof {
        assert(goal.take(i as int) =~= goal);
        lemma_lex_total_ordering();
        goal.lemma_sort_by_ensures(lex_leq_fn());
        lemma_sorted_unique(out.deep_view(), goal.sort_by(lex_leq_fn()), lex_leq_fn());
        assert(out.deep_view() =~= sorted_of(goal));
    }
    out
}

} // verus!
