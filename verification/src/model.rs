//! Mathematical model of the champion selection.
//!
//! A [`Player`] is the abstract value of an entrant.  The three passes of
//! the selector are modelled by [`bests_after`] and [`draws_after`] (the
//! per-category reduction), [`candidate_set`] (candidate assembly) and
//! [`included`] (the elimination sweep).  [`is_selection`] ties them
//! together: it holds of an input sequence and an output sequence exactly
//! when the output is the strictly ordered sequence of surviving
//! candidates, and so determines the output uniquely.

use vstd::prelude::*;

verus! {

/// Abstract value of an entrant: rating (higher is better), age category,
/// and name.
#[verifier::ext_equal]
pub ghost struct Player {
    pub ratio: u16,
    pub age: u16,
    pub name: Seq<char>,
}

/// Two players draw when their ratings are exactly equal.
pub open spec fn is_draw(a: Player, b: Player) -> bool {
    a.ratio == b.ratio
}

/// `a` is eliminated by `b` when `b` sits at an equal-or-lower age category
/// and rates at least as high as `a`.
pub open spec fn is_eliminated(a: Player, b: Player) -> bool {
    (a.age >= b.age && a.ratio < b.ratio) || (a.age >= b.age && a.ratio == b.ratio)
}

/// Of two players, the one with the strictly higher rating; `b` on a tie.
pub open spec fn stronger(a: Player, b: Player) -> Player {
    if a.ratio > b.ratio {
        a
    } else {
        b
    }
}

/// The per-category bests after processing `entrants` in input order.
/// The first entrant of a category becomes its best; a later entrant with
/// the same rating as the current best is a draw and leaves the map
/// unchanged; otherwise the higher-rated of the two is kept.
pub open spec fn bests_after(entrants: Seq<Player>) -> Map<u16, Player>
    decreases entrants.len(),
{
    if entrants.len() == 0 {
        Map::empty()
    } else {
        let m = bests_after(entrants.drop_last());
        let p = entrants.last();
        if !m.dom().contains(p.age) {
            m.insert(p.age, p)
        } else if p.ratio == m[p.age].ratio {
            m
        } else {
            m.insert(p.age, stronger(p, m[p.age]))
        }
    }
}

/// The draw records after processing `entrants` in input order: each time
/// an entrant ties the current best of its category, that best and then
/// the entrant are appended.
pub open spec fn draws_after(entrants: Seq<Player>) -> Seq<Player>
    decreases entrants.len(),
{
    if entrants.len() == 0 {
        Seq::empty()
    } else {
        let m = bests_after(entrants.drop_last());
        let d = draws_after(entrants.drop_last());
        let p = entrants.last();
        if m.dom().contains(p.age) && p.ratio == m[p.age].ratio {
            d.push(m[p.age]).push(p)
        } else {
            d
        }
    }
}

/// Championship candidates: every final category best together with every
/// draw participant.
pub open spec fn candidate_set(entrants: Seq<Player>) -> Set<Player> {
    bests_after(entrants).values().union(draws_after(entrants).to_set())
}

/// A candidate reaches its own category in the elimination sweep exactly
/// when no strictly lower category holds a best rated at least as high.
pub open spec fn included(p: Player, m: Map<u16, Player>) -> bool {
    forall|k: u16| (#[trigger] m.dom().contains(k)) && k < p.age ==> m[k].ratio < p.ratio
}

/// Strict lexicographic order on character sequences by code point.
pub open spec fn chars_lt(a: Seq<char>, b: Seq<char>) -> bool
    decreases a.len(),
{
    if b.len() == 0 {
        false
    } else if a.len() == 0 {
        true
    } else if a[0] != b[0] {
        (a[0] as u32) < (b[0] as u32)
    } else {
        chars_lt(a.drop_first(), b.drop_first())
    }
}

/// Strict total order on players: by age category, then rating, then name.
pub open spec fn player_lt(a: Player, b: Player) -> bool {
    ||| a.age < b.age
    ||| (a.age == b.age && a.ratio < b.ratio)
    ||| (a.age == b.age && a.ratio == b.ratio && chars_lt(a.name, b.name))
}

/// Strictly increasing by `player_lt`; such a sequence holds no duplicates.
pub open spec fn strictly_increasing(s: Seq<Player>) -> bool {
    forall|i: int, j: int| 0 <= i < j < s.len() ==> #[trigger] player_lt(s[i], s[j])
}

/// Full account of one run of the selector: the output is strictly ordered
/// by `player_lt` and holds exactly the candidates that survive the
/// elimination sweep.  Exactly one output sequence satisfies this for a
/// given input.
pub open spec fn is_selection(entrants: Seq<Player>, out: Seq<Player>) -> bool {
    &&& strictly_increasing(out)
    &&& forall|p: Player|
        #![trigger out.contains(p)]
        #![trigger candidate_set(entrants).contains(p)]
        out.contains(p) <==> candidate_set(entrants).contains(p) && included(
            p,
            bests_after(entrants),
        )
}

pub proof fn lemma_chars_lt_connected(a: Seq<char>, b: Seq<char>)
    ensures
        a != b ==> chars_lt(a, b) || chars_lt(b, a),
    decreases a.len(),
{
    if b.len() == 0 {
        if a.len() == 0 {
            assert(a =~= b);
        }
    } else if a.len() == 0 {
    } else if a[0] == b[0] {
        lemma_chars_lt_connected(a.drop_first(), b.drop_first());
        if a.drop_first() == b.drop_first() {
            assert(a.drop_first().len() == b.drop_first().len());
            assert(a.len() == b.len());
            assert forall|i: int| 0 <= i < a.len() implies a[i] == b[i] by {
                if i > 0 {
                    assert(a[i] == a.drop_first()[i - 1]);
                    assert(b[i] == b.drop_first()[i - 1]);
                }
            }
            assert(a =~= b);
        }
    } else {
        if (a[0] as u32) == (b[0] as u32) {
            vstd::utf8::char_u32_cast(a[0], a[0] as u32);
            vstd::utf8::char_u32_cast(b[0], b[0] as u32);
        }
    }
}

pub proof fn lemma_chars_lt_asymmetric(a: Seq<char>, b: Seq<char>)
    ensures
        chars_lt(a, b) ==> !chars_lt(b, a),
    decreases a.len(),
{
    if a.len() > 0 && b.len() > 0 && a[0] == b[0] {
        lemma_chars_lt_asymmetric(a.drop_first(), b.drop_first());
    }
}

pub proof fn lemma_chars_lt_transitive(a: Seq<char>, b: Seq<char>, c: Seq<char>)
    ensures
        chars_lt(a, b) && chars_lt(b, c) ==> chars_lt(a, c),
    decreases a.len(),
{
    if chars_lt(a, b) && chars_lt(b, c) && a.len() > 0 {
        if a[0] == b[0] && b[0] == c[0] {
            lemma_chars_lt_transitive(a.drop_first(), b.drop_first(), c.drop_first());
        }
    }
}

/// `player_lt` is a strict total order: any two distinct players are
/// ordered, and never both ways.
pub proof fn lemma_player_order(a: Player, b: Player)
    ensures
        a != b ==> player_lt(a, b) || player_lt(b, a),
        player_lt(a, b) ==> !player_lt(b, a) && a != b,
{
    lemma_chars_lt_connected(a.name, b.name);
    lemma_chars_lt_asymmetric(a.name, b.name);
    lemma_chars_lt_asymmetric(a.name, a.name);
    if a != b && !player_lt(a, b) && !player_lt(b, a) {
        assert(a =~= b);
    }
}

pub proof fn lemma_player_lt_transitive(a: Player, b: Player, c: Player)
    ensures
        player_lt(a, b) && player_lt(b, c) ==> player_lt(a, c),
{
    lemma_chars_lt_transitive(a.name, b.name, c.name);
}

/// Every recorded best sits at the key of its own category.
pub proof fn lemma_best_age_matches_key(entrants: Seq<Player>, k: u16)
    ensures
        bests_after(entrants).dom().contains(k) ==> bests_after(entrants)[k].age == k,
    decreases entrants.len(),
{
    if entrants.len() > 0 {
        lemma_best_age_matches_key(entrants.drop_last(), k);
    }
}

/// Every recorded best is one of the entrants.
pub proof fn lemma_best_from_input(entrants: Seq<Player>, k: u16)
    ensures
        bests_after(entrants).dom().contains(k) ==> entrants.contains(bests_after(entrants)[k]),
    decreases entrants.len(),
{
    if entrants.len() > 0 {
        lemma_best_from_input(entrants.drop_last(), k);
        if bests_after(entrants.drop_last()).dom().contains(k) {
            let w = bests_after(entrants.drop_last())[k];
            if entrants.drop_last().contains(w) {
                let i = choose|i: int|
                    0 <= i < entrants.drop_last().len() && entrants.drop_last()[i] == w;
                assert(entrants[i] == w);
            }
        }
        if bests_after(entrants).dom().contains(k) {
            let v = bests_after(entrants)[k];
            if v == entrants.last() {
                assert(entrants[entrants.len() - 1] == v);
            }
        }
    }
}

/// The set of recorded categories only grows as entrants are processed.
pub proof fn lemma_bests_dom_grows(entrants: Seq<Player>, k: u16)
    ensures
        entrants.len() > 0 && bests_after(entrants.drop_last()).dom().contains(k)
            ==> bests_after(entrants).dom().contains(k),
{
}

/// Every draw participant is one of the entrants.
pub proof fn lemma_draw_from_input(entrants: Seq<Player>, p: Player)
    ensures
        draws_after(entrants).contains(p) ==> entrants.contains(p),
    decreases entrants.len(),
{
    if entrants.len() > 0 && draws_after(entrants).contains(p) {
        lemma_draw_from_input(entrants.drop_last(), p);
        lemma_best_from_input(entrants.drop_last(), entrants.last().age);
        if entrants.drop_last().contains(p) {
            let i = choose|i: int|
                0 <= i < entrants.drop_last().len() && entrants.drop_last()[i] == p;
            assert(entrants[i] == p);
        } else if p == entrants.last() {
            assert(entrants[entrants.len() - 1] == p);
        }
    }
}

/// Every draw participant's category is recorded in the final bests.
pub proof fn lemma_draw_age_recorded(entrants: Seq<Player>, p: Player)
    ensures
        draws_after(entrants).contains(p) ==> bests_after(entrants).dom().contains(p.age),
    decreases entrants.len(),
{
    if entrants.len() > 0 && draws_after(entrants).contains(p) {
        lemma_draw_age_recorded(entrants.drop_last(), p);
        lemma_bests_dom_grows(entrants, p.age);
        lemma_best_age_matches_key(entrants.drop_last(), entrants.last().age);
        lemma_bests_dom_grows(entrants, entrants.last().age);
    }
}

/// Every candidate's category is recorded in the final bests.
pub proof fn lemma_candidate_age_recorded(entrants: Seq<Player>, p: Player)
    ensures
        candidate_set(entrants).contains(p) ==> bests_after(entrants).dom().contains(p.age),
{
    if candidate_set(entrants).contains(p) {
        if bests_after(entrants).values().contains(p) {
            let k = choose|k: u16|
                #[trigger] bests_after(entrants).dom().contains(k) && bests_after(entrants)[k]
                    == p;
            lemma_best_age_matches_key(entrants, k);
        } else {
            lemma_draw_age_recorded(entrants, p);
        }
    }
}

/// No candidate is fabricated: every candidate is one of the entrants.
pub proof fn lemma_candidate_from_input(entrants: Seq<Player>, p: Player)
    ensures
        candidate_set(entrants).contains(p) ==> entrants.contains(p),
{
    if candidate_set(entrants).contains(p) {
        if bests_after(entrants).values().contains(p) {
            let k = choose|k: u16|
                #[trigger] bests_after(entrants).dom().contains(k) && bests_after(entrants)[k]
                    == p;
            lemma_best_from_input(entrants, k);
        } else {
            lemma_draw_from_input(entrants, p);
        }
    }
}

} // verus!
