//! General properties of the selection, proved once and for all inputs.
//!
//! Each law is stated against [`is_selection`], the relation that the
//! contract of [`get_champions`](crate::select::get_champions) establishes
//! between its input and its output.

use crate::model::{
    bests_after, candidate_set, draws_after, included, is_selection, lemma_best_from_input,
    lemma_candidate_from_input, lemma_player_order, player_lt, strictly_increasing, stronger,
    Player,
};
use vstd::prelude::*;
use vstd::seq_lib::{to_multiset_contains, to_multiset_len};

verus! {

/// An empty input produces an empty output.
pub proof fn lemma_empty_input(out: Seq<Player>)
    requires
        is_selection(Seq::empty(), out),
    ensures
        out == Seq::<Player>::empty(),
{
    if out.len() > 0 {
        let p = out[0];
        assert(out.contains(p));
        assert(candidate_set(Seq::empty()).contains(p));
        if bests_after(Seq::empty()).values().contains(p) {
            let k = choose|k: u16|
                #[trigger] bests_after(Seq::empty()).dom().contains(k) && bests_after(
                    Seq::empty(),
                )[k] == p;
            assert(Map::<u16, Player>::empty().dom().contains(k));
            assert(false);
        } else {
            assert(draws_after(Seq::empty()).to_set().contains(p));
            assert(Seq::<Player>::empty().contains(p));
            assert(false);
        }
    }
    assert(out =~= Seq::<Player>::empty());
}

/// A single entrant is its own champion: no other category exists to
/// eliminate it.
pub proof fn lemma_single_entrant(p: Player, out: Seq<Player>)
    requires
        is_selection(seq![p], out),
    ensures
        out == seq![p],
{
    let s = seq![p];
    let m = bests_after(s);
    assert(s.drop_last() =~= Seq::<Player>::empty());
    assert(s.last() == p);
    assert(bests_after(Seq::<Player>::empty()) == Map::<u16, Player>::empty());
    assert(draws_after(Seq::<Player>::empty()) == Seq::<Player>::empty());
    assert(!Map::<u16, Player>::empty().dom().contains(p.age));
    assert(m == Map::<u16, Player>::empty().insert(p.age, p));
    assert(draws_after(s) == Seq::<Player>::empty());

    assert forall|v: Player| #[trigger] candidate_set(s).contains(v) implies v == p by {
        if m.values().contains(v) {
            let k = choose|k: u16| #[trigger] m.dom().contains(k) && m[k] == v;
            assert(k == p.age);
        } else {
            assert(draws_after(s).to_set().contains(v));
            assert(Seq::<Player>::empty().contains(v));
        }
    }
    assert(m.dom().contains(p.age) && m[p.age] == p);
    assert(m.contains_value(p));
    assert(candidate_set(s).contains(p));
    assert forall|k: u16| (#[trigger] m.dom().contains(k)) && k < p.age implies m[k].ratio
        < p.ratio by {
        assert(k == p.age);
    }
    assert(included(p, m));
    assert(out.contains(p));
    if out.len() > 1 {
        assert(out.contains(out[0]) && out.contains(out[1]));
        assert(out[0] == p && out[1] == p);
        assert(player_lt(out[0], out[1]));
        lemma_player_order(p, p);
        assert(false);
    }
    let q = choose|q: int| 0 <= q < out.len() && out[q] == p;
    assert(out =~= seq![p]);
}

/// Within one category, the final best's rating is the maximum rating among
/// the entrants processed: every entrant is rated no higher, and some
/// entrant carries exactly that rating.
pub proof fn lemma_reduction_best_rating(entrants: Seq<Player>, c: u16)
    requires
        entrants.len() > 0,
        forall|i: int| 0 <= i < entrants.len() ==> (#[trigger] entrants[i]).age == c,
    ensures
        bests_after(entrants).dom().contains(c),
        forall|i: int|
            0 <= i < entrants.len() ==> (#[trigger] entrants[i]).ratio <= bests_after(
                entrants,
            )[c].ratio,
        exists|i: int|
            0 <= i < entrants.len() && (#[trigger] entrants[i]).ratio == bests_after(
                entrants,
            )[c].ratio,
    decreases entrants.len(),
{
    let m = bests_after(entrants);
    let p = entrants.last();
    assert(p == entrants[entrants.len() - 1]);
    if entrants.len() == 1 {
        assert(entrants.drop_last() =~= Seq::<Player>::empty());
        assert(m == Map::<u16, Player>::empty().insert(c, p));
        assert(entrants[0].ratio == m[c].ratio);
    } else {
        let prefix = entrants.drop_last();
        assert forall|i: int| 0 <= i < prefix.len() implies (#[trigger] prefix[i]).age == c by {
            assert(prefix[i] == entrants[i]);
        }
        lemma_reduction_best_rating(prefix, c);
        let m_prev = bests_after(prefix);
        let w = choose|w: int|
            0 <= w < prefix.len() && (#[trigger] prefix[w]).ratio == m_prev[c].ratio;
        assert(entrants[w].ratio == m_prev[c].ratio);
        if p.ratio == m_prev[c].ratio {
            assert(m == m_prev);
            assert forall|i: int| 0 <= i < entrants.len() implies (#[trigger] entrants[i]).ratio
                <= m[c].ratio by {
                if i < prefix.len() {
                    assert(prefix[i].ratio <= m_prev[c].ratio);
                }
            }
        } else {
            assert(m == m_prev.insert(c, stronger(p, m_prev[c])));
            assert forall|i: int| 0 <= i < entrants.len() implies (#[trigger] entrants[i]).ratio
                <= m[c].ratio by {
                if i < prefix.len() {
                    assert(prefix[i].ratio <= m_prev[c].ratio);
                }
            }
            if m[c].ratio == p.ratio {
                assert(entrants[entrants.len() - 1].ratio == m[c].ratio);
            } else {
                assert(entrants[w].ratio == m[c].ratio);
            }
        }
    }
}

/// A reordering of entrants of one category is itself of that category.
proof fn lemma_reordering_same_category(s1: Seq<Player>, s2: Seq<Player>, c: u16)
    requires
        s1.to_multiset() == s2.to_multiset(),
        forall|i: int| 0 <= i < s1.len() ==> (#[trigger] s1[i]).age == c,
    ensures
        forall|i: int| 0 <= i < s2.len() ==> (#[trigger] s2[i]).age == c,
{
    assert forall|i: int| 0 <= i < s2.len() implies (#[trigger] s2[i]).age == c by {
        to_multiset_contains(s2, s2[i]);
        to_multiset_contains(s1, s2[i]);
        assert(s1.contains(s2[i]));
        let w = choose|w: int| 0 <= w < s1.len() && s1[w] == s2[i];
        assert(s1[w].age == c);
    }
}

/// Re-running the per-category reduction on a reordering of the same
/// multiset of entrants of one category yields a best with the same rating.
/// (Which entrant carries it, and which pairs are flagged as draws, does
/// depend on the order.)
pub proof fn lemma_reduction_order_independent(s1: Seq<Player>, s2: Seq<Player>, c: u16)
    requires
        s1.len() > 0,
        s1.to_multiset() == s2.to_multiset(),
        forall|i: int| 0 <= i < s1.len() ==> (#[trigger] s1[i]).age == c,
    ensures
        bests_after(s1)[c].ratio == bests_after(s2)[c].ratio,
{
    to_multiset_len(s1);
    to_multiset_len(s2);
    lemma_reordering_same_category(s1, s2, c);
    lemma_reduction_best_rating(s1, c);
    lemma_reduction_best_rating(s2, c);
    let w1 = choose|i: int|
        0 <= i < s1.len() && (#[trigger] s1[i]).ratio == bests_after(s1)[c].ratio;
    to_multiset_contains(s1, s1[w1]);
    to_multiset_contains(s2, s1[w1]);
    assert(s2.contains(s1[w1]));
    let v1 = choose|v: int| 0 <= v < s2.len() && s2[v] == s1[w1];
    assert(s2[v1].ratio <= bests_after(s2)[c].ratio);
    let w2 = choose|i: int|
        0 <= i < s2.len() && (#[trigger] s2[i]).ratio == bests_after(s2)[c].ratio;
    to_multiset_contains(s2, s2[w2]);
    to_multiset_contains(s1, s2[w2]);
    assert(s1.contains(s2[w2]));
    let v2 = choose|v: int| 0 <= v < s1.len() && s1[v] == s2[w2];
    assert(s1[v2].ratio <= bests_after(s1)[c].ratio);
}

/// With pairwise distinct ratings in the category, the reduction is fully
/// order-independent: a reordering yields the very same final best, not
/// merely one of equal rating.  (With tied ratings only the rating is
/// order-independent.)
pub proof fn lemma_reduction_same_best(s1: Seq<Player>, s2: Seq<Player>, c: u16)
    requires
        s1.len() > 0,
        s1.to_multiset() == s2.to_multiset(),
        forall|i: int| 0 <= i < s1.len() ==> (#[trigger] s1[i]).age == c,
        forall|i: int, j: int|
            0 <= i < j < s1.len() ==> (#[trigger] s1[i]).ratio != (#[trigger] s1[j]).ratio,
    ensures
        bests_after(s1)[c] == bests_after(s2)[c],
{
    to_multiset_len(s1);
    to_multiset_len(s2);
    lemma_reordering_same_category(s1, s2, c);
    lemma_reduction_order_independent(s1, s2, c);
    lemma_reduction_best_rating(s1, c);
    lemma_reduction_best_rating(s2, c);
    let b1 = bests_after(s1)[c];
    let b2 = bests_after(s2)[c];
    lemma_best_from_input(s1, c);
    lemma_best_from_input(s2, c);
    assert(s1.contains(b1));
    assert(s2.contains(b2));
    to_multiset_contains(s2, b2);
    to_multiset_contains(s1, b2);
    assert(s1.contains(b2));
    let i = choose|i: int| 0 <= i < s1.len() && s1[i] == b1;
    let j = choose|j: int| 0 <= j < s1.len() && s1[j] == b2;
    if i < j {
        assert(s1[i].ratio != s1[j].ratio);
    }
    if j < i {
        assert(s1[j].ratio != s1[i].ratio);
    }
}

/// Elimination is monotone: a candidate whose rating is matched or beaten
/// by the best of a strictly lower recorded category never appears in the
/// output.
pub proof fn lemma_elimination_monotonic(
    entrants: Seq<Player>,
    out: Seq<Player>,
    p: Player,
    k: u16,
)
    requires
        is_selection(entrants, out),
        bests_after(entrants).dom().contains(k),
        k < p.age,
        bests_after(entrants)[k].ratio >= p.ratio,
    ensures
        !out.contains(p),
{
    if out.contains(p) {
        assert(included(p, bests_after(entrants)));
        assert(bests_after(entrants)[k].ratio < p.ratio);
    }
}

/// No fabrication: every champion in the output is one of the input
/// entrants, with rating, age category and name matched exactly.
pub proof fn lemma_no_fabrication(entrants: Seq<Player>, out: Seq<Player>, p: Player)
    requires
        is_selection(entrants, out),
        out.contains(p),
    ensures
        entrants.contains(p),
{
    lemma_candidate_from_input(entrants, p);
}

/// The output is ordered: adjacent champions have non-decreasing age
/// categories.
pub proof fn lemma_ascending_output(entrants: Seq<Player>, out: Seq<Player>, i: int)
    requires
        is_selection(entrants, out),
        0 <= i < out.len() - 1,
    ensures
        out[i].age <= out[i + 1].age,
{
    assert(player_lt(out[i], out[i + 1]));
}

/// Two strictly increasing sequences with the same members are equal.
proof fn lemma_sorted_same_members(a: Seq<Player>, b: Seq<Player>)
    requires
        strictly_increasing(a),
        strictly_increasing(b),
        forall|p: Player| a.contains(p) <==> #[trigger] b.contains(p),
    ensures
        a == b,
    decreases a.len(),
{
    if a.len() == 0 {
        if b.len() > 0 {
            assert(b.contains(b[0]));
            assert(a.contains(b[0]));
        }
        assert(a =~= b);
    } else {
        assert(a.contains(a[0]));
        assert(b.contains(a[0]));
        assert(b.len() > 0);
        let qa = choose|q: int| 0 <= q < b.len() && b[q] == a[0];
        assert(b.contains(b[0]));
        assert(a.contains(b[0]));
        let qb = choose|q: int| 0 <= q < a.len() && a[q] == b[0];
        if qa > 0 && qb > 0 {
            assert(player_lt(b[0], b[qa]));
            assert(player_lt(a[0], a[qb]));
            lemma_player_order(a[0], b[0]);
            assert(false);
        }
        assert(a[0] == b[0]);
        let ta = a.drop_first();
        let tb = b.drop_first();
        assert forall|i: int, j: int| 0 <= i < j < ta.len() implies player_lt(ta[i], ta[j]) by {
            assert(ta[i] == a[i + 1] && ta[j] == a[j + 1]);
            assert(player_lt(a[i + 1], a[j + 1]));
        }
        assert forall|i: int, j: int| 0 <= i < j < tb.len() implies player_lt(tb[i], tb[j]) by {
            assert(tb[i] == b[i + 1] && tb[j] == b[j + 1]);
            assert(player_lt(b[i + 1], b[j + 1]));
        }
        assert forall|p: Player| ta.contains(p) implies #[trigger] tb.contains(p) by {
            let w = choose|w: int| 0 <= w < ta.len() && ta[w] == p;
            assert(a[w + 1] == p);
            assert(a.contains(p));
            assert(b.contains(p));
            let v = choose|v: int| 0 <= v < b.len() && b[v] == p;
            assert(player_lt(a[0], a[w + 1]));
            lemma_player_order(a[0], p);
            assert(v != 0);
            assert(tb[v - 1] == p);
        }
        assert forall|p: Player| tb.contains(p) implies #[trigger] ta.contains(p) by {
            let w = choose|w: int| 0 <= w < tb.len() && tb[w] == p;
            assert(b[w + 1] == p);
            assert(b.contains(p));
            assert(a.contains(p));
            let v = choose|v: int| 0 <= v < a.len() && a[v] == p;
            assert(player_lt(b[0], b[w + 1]));
            lemma_player_order(b[0], p);
            assert(v != 0);
            assert(ta[v - 1] == p);
        }
        lemma_sorted_same_members(ta, tb);
        assert forall|i: int| 0 <= i < a.len() implies a[i] == b[i] by {
            if i > 0 {
                assert(ta[i - 1] == tb[i - 1]);
            }
        }
        assert(a =~= b);
    }
}

/// The selection relation is deterministic: it admits exactly one output
/// for a given input, so the contract of
/// [`get_champions`](crate::select::get_champions) pins its result down.
pub proof fn lemma_selection_deterministic(
    entrants: Seq<Player>,
    out1: Seq<Player>,
    out2: Seq<Player>,
)
    requires
        is_selection(entrants, out1),
        is_selection(entrants, out2),
    ensures
        out1 == out2,
{
    lemma_sorted_same_members(out1, out2);
}

} // verus!
