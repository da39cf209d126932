//! The champion selector: per-category reduction, candidate assembly, and
//! the elimination sweep.

use crate::model::{
    bests_after, candidate_set, draws_after, included, is_selection, lemma_best_age_matches_key,
    lemma_candidate_age_recorded, lemma_player_lt_transitive, lemma_player_order, player_lt,
    strictly_increasing, stronger, Player,
};
use crate::player::{views, ChessPlayer};
use vstd::pervasive::VecAdditionalExecFns;
use vstd::prelude::*;

verus! {

/// The per-category bests held as a list: one entry per recorded category,
/// each entry at its own age, together modelling the map `m`.
spec fn records_map(r: Seq<Player>, m: Map<u16, Player>) -> bool {
    &&& forall|i: int, j: int|
        0 <= i < j < r.len() ==> (#[trigger] r[i]).age != (#[trigger] r[j]).age
    &&& forall|i: int|
        0 <= i < r.len() ==> m.dom().contains((#[trigger] r[i]).age) && m[r[i].age] == r[i]
    &&& forall|k: u16| #[trigger]
        m.dom().contains(k) ==> exists|i: int| 0 <= i < r.len() && (#[trigger] r[i]).age == k
}

/// Index of the recorded best for the given age category, if any.
fn find_by_age(record: &Vec<ChessPlayer>, age: u16) -> (found: Option<usize>)
    ensures
        match found {
            Some(i) => i < record@.len() && views(record@)[i as int].age == age,
            None => forall|i: int| 0 <= i < record@.len() ==> views(record@)[i].age != age,
        },
{
    let mut i: usize = 0;
    while i < record.len()
        invariant
            i <= record@.len(),
            forall|j: int| 0 <= j < i ==> views(record@)[j].age != age,
        decreases record@.len() - i,
    {
        if record[i].age == age {
            return Some(i);
        }
        i = i + 1;
    }
    None
}

spec fn ages_sorted(s: Seq<u16>) -> bool {
    forall|i: int, j: int| 0 <= i < j < s.len() ==> s[i] < s[j]
}

/// Position of the first key not below `k` in an ascending list.
fn age_position(ages: &Vec<u16>, k: u16) -> (pos: usize)
    requires
        ages_sorted(ages@),
    ensures
        pos <= ages@.len(),
        forall|j: int| 0 <= j < pos ==> ages@[j] < k,
        pos < ages@.len() ==> ages@[pos as int] >= k,
{
    let mut i: usize = 0;
    while i < ages.len()
        invariant
            i <= ages@.len(),
            forall|j: int| 0 <= j < i ==> ages@[j] < k,
        decreases ages@.len() - i,
    {
        if ages[i] >= k {
            return i;
        }
        i = i + 1;
    }
    i
}

/// Insert a category key into an ascending list of distinct keys.
fn insert_age(ages: &mut Vec<u16>, k: u16)
    requires
        ages_sorted(old(ages)@),
    ensures
        ages_sorted(final(ages)@),
        final(ages)@.to_set() == old(ages)@.to_set().insert(k),
{
    let i = age_position(ages, k);
    if i < ages.len() && ages[i] == k {
        proof {
            assert(ages@.to_set().contains(k));
            assert(ages@.to_set() =~= old(ages)@.to_set().insert(k));
        }
        return ;
    }
    proof {
        old(ages)@.insert_ensures(i as int, k);
    }
    let ghost prior = ages@;
    ages.insert(i, k);
    proof {
        assert forall|p: int, q: int| 0 <= p < q < ages@.len() implies ages@[p] < ages@[q] by {
            if q < i {
                assert(ages@[p] == prior[p] && ages@[q] == prior[q]);
            } else if p < i && q == i {
                assert(ages@[p] == prior[p] && ages@[q] == k);
            } else if p < i && q > i {
                assert(ages@[p] == prior[p] && ages@[q] == prior[q - 1]);
                if q - 1 > i - 1 && q - 1 >= i {
                    assert(prior[i as int] > k || i == prior.len());
                }
            } else if p == i {
                assert(ages@[q] == prior[q - 1] && q - 1 >= i);
                assert(prior[i as int] > k);
                if q - 1 > i {
                    assert(prior[i as int] < prior[q - 1]);
                }
            } else {
                assert(ages@[p] == prior[p - 1] && ages@[q] == prior[q - 1]);
            }
        }
        assert forall|x: u16| ages@.to_set().contains(x) implies prior.to_set().insert(k).contains(
            x,
        ) by {
            let q = choose|q: int| 0 <= q < ages@.len() && ages@[q] == x;
            if q < i {
                assert(prior[q] == x);
            } else if q > i {
                assert(prior[q - 1] == x);
            }
        }
        assert forall|x: u16| prior.to_set().insert(k).contains(x) implies ages@.to_set().contains(
            x,
        ) by {
            if x == k {
                assert(ages@[i as int] == k);
            } else {
                let q = choose|q: int| 0 <= q < prior.len() && prior[q] == x;
                if q < i {
                    assert(ages@[q] == x);
                } else {
                    assert(ages@[q + 1] == x);
                }
            }
        }
        assert(ages@.to_set() =~= prior.to_set().insert(k));
    }
}

/// Recording a first best for a fresh category keeps the list a model of
/// the map.
proof fn lemma_records_push(r: Seq<Player>, m: Map<u16, Player>, p: Player)
    requires
        records_map(r, m),
        !m.dom().contains(p.age),
    ensures
        records_map(r.push(p), m.insert(p.age, p)),
{
    let r2 = r.push(p);
    let m2 = m.insert(p.age, p);
    assert forall|a: int, b: int| 0 <= a < b < r2.len() implies (#[trigger] r2[a]).age != (
    #[trigger] r2[b]).age by {
        if b < r.len() {
            assert(r[a].age != r[b].age);
        } else {
            assert(m.dom().contains(r[a].age));
        }
    }
    assert forall|i: int| 0 <= i < r2.len() implies m2.dom().contains((#[trigger] r2[i]).age)
        && m2[r2[i].age] == r2[i] by {
        if i < r.len() {
            assert(m.dom().contains(r[i].age) && m[r[i].age] == r[i]);
        }
    }
    assert forall|k: u16| #[trigger] m2.dom().contains(k) implies exists|i: int|
        0 <= i < r2.len() && (#[trigger] r2[i]).age == k by {
        if k == p.age {
            assert(r2[r.len() as int].age == k);
        } else {
            assert(m.dom().contains(k));
            let i = choose|i: int| 0 <= i < r.len() && (#[trigger] r[i]).age == k;
            assert(r2[i].age == k);
        }
    }
}

/// Replacing a category's best by a new one of the same age keeps the list
/// a model of the map.
proof fn lemma_records_update(r: Seq<Player>, m: Map<u16, Player>, j: int, p: Player)
    requires
        records_map(r, m),
        0 <= j < r.len(),
        r[j].age == p.age,
    ensures
        records_map(r.update(j, p), m.insert(p.age, p)),
{
    let r2 = r.update(j, p);
    let m2 = m.insert(p.age, p);
    assert forall|a: int, b: int| 0 <= a < b < r2.len() implies (#[trigger] r2[a]).age != (
    #[trigger] r2[b]).age by {
        assert(r[a].age != r[b].age);
    }
    assert forall|i: int| 0 <= i < r2.len() implies m2.dom().contains((#[trigger] r2[i]).age)
        && m2[r2[i].age] == r2[i] by {
        if i != j {
            assert(m.dom().contains(r[i].age) && m[r[i].age] == r[i]);
            if i < j {
                assert(r[i].age != r[j].age);
            } else {
                assert(r[j].age != r[i].age);
            }
        }
    }
    assert forall|k: u16| #[trigger] m2.dom().contains(k) implies exists|i: int|
        0 <= i < r2.len() && (#[trigger] r2[i]).age == k by {
        if k == p.age {
            assert(r2[j].age == k);
        } else {
            assert(m.dom().contains(k));
            let i = choose|i: int| 0 <= i < r.len() && (#[trigger] r[i]).age == k;
            assert(i != j);
            assert(r2[i].age == k);
        }
    }
}

/// The recorded bests, as a set, are exactly the values of the map.
proof fn lemma_records_values(r: Seq<Player>, m: Map<u16, Player>)
    requires
        records_map(r, m),
    ensures
        m.values() =~= r.to_set(),
{
    assert forall|v: Player| m.values().contains(v) implies r.to_set().contains(v) by {
        let k = choose|k: u16| #[trigger] m.dom().contains(k) && m[k] == v;
        let i = choose|i: int| 0 <= i < r.len() && (#[trigger] r[i]).age == k;
        assert(r.to_set().contains(r[i]));
    }
    assert forall|v: Player| r.to_set().contains(v) implies m.values().contains(v) by {
        let i = choose|i: int| 0 <= i < r.len() && r[i] == v;
        assert(m.dom().contains(r[i].age) && m[r[i].age] == r[i]);
    }
}

/// Position of the first candidate not before `p` in the output order.
fn candidate_position(cands: &Vec<ChessPlayer>, p: &ChessPlayer) -> (pos: usize)
    requires
        strictly_increasing(views(cands@)),
    ensures
        pos <= cands@.len(),
        forall|j: int| 0 <= j < pos ==> player_lt(views(cands@)[j], p@),
        pos < cands@.len() ==> !player_lt(views(cands@)[pos as int], p@),
{
    let mut i: usize = 0;
    while i < cands.len()
        invariant
            i <= cands@.len(),
            forall|j: int| 0 <= j < i ==> player_lt(views(cands@)[j], p@),
        decreases cands@.len() - i,
    {
        if !cands[i].comes_before(p) {
            return i;
        }
        i = i + 1;
    }
    i
}

/// Insert a candidate, keeping the list strictly ordered and free of
/// duplicates.
fn insert_candidate(cands: &mut Vec<ChessPlayer>, p: ChessPlayer)
    requires
        strictly_increasing(views(old(cands)@)),
    ensures
        strictly_increasing(views(final(cands)@)),
        views(final(cands)@).to_set() == views(old(cands)@).to_set().insert(p@),
{
    let i = candidate_position(cands, &p);
    if i < cands.len() && cands[i] == p {
        proof {
            assert(views(cands@)[i as int] == p@);
            assert(views(cands@).to_set().contains(p@));
            assert(views(cands@).to_set() =~= views(old(cands)@).to_set().insert(p@));
        }
        return ;
    }
    let ghost prior = views(cands@);
    proof {
        prior.insert_ensures(i as int, p@);
        if i < prior.len() {
            lemma_player_order(prior[i as int], p@);
        }
    }
    cands.insert(i, p);
    proof {
        let s = views(cands@);
        assert(s =~= prior.insert(i as int, p@));
        assert forall|a: int, b: int| 0 <= a < b < s.len() implies player_lt(s[a], s[b]) by {
            if b < i {
                assert(player_lt(prior[a], prior[b]));
            } else if a < i && b == i {
                assert(player_lt(prior[a], p@));
            } else if a < i && b > i {
                assert(player_lt(prior[a], prior[b - 1]));
            } else if a == i && b > i {
                assert(player_lt(p@, prior[i as int]));
                if b - 1 > i {
                    assert(player_lt(prior[i as int], prior[b - 1]));
                    lemma_player_lt_transitive(p@, prior[i as int], prior[b - 1]);
                }
            } else {
                assert(player_lt(prior[a - 1], prior[b - 1]));
            }
        }
        assert forall|x: Player| s.to_set().contains(x) implies prior.to_set().insert(p@).contains(
            x,
        ) by {
            let q = choose|q: int| 0 <= q < s.len() && s[q] == x;
            if q < i {
                assert(prior[q] == x);
                assert(prior.to_set().contains(x));
            } else if q > i {
                assert(prior[q - 1] == x);
                assert(prior.to_set().contains(x));
            }
        }
        assert forall|x: Player| prior.to_set().insert(p@).contains(x) implies s.to_set().contains(
            x,
        ) by {
            if x == p@ {
                assert(s[i as int] == x);
            } else {
                let q = choose|q: int| 0 <= q < prior.len() && prior[q] == x;
                if q < i {
                    assert(s[q] == x);
                } else {
                    assert(s[q + 1] == x);
                }
            }
        }
        assert(s.to_set() =~= prior.to_set().insert(p@));
    }
}

/// The elimination sweep for one candidate: walk the recorded categories in
/// ascending order; the candidate survives when it reaches its own category
/// before any lower category's best eliminates it.
fn survives(
    candidate: &ChessPlayer,
    ages: &Vec<u16>,
    record: &Vec<ChessPlayer>,
    Ghost(m): Ghost<Map<u16, Player>>,
) -> (alive: bool)
    requires
        records_map(views(record@), m),
        ages_sorted(ages@),
        forall|k: u16| ages@.to_set().contains(k) <==> #[trigger] m.dom().contains(k),
        forall|k: u16| #[trigger] m.dom().contains(k) ==> m[k].age == k,
        m.dom().contains(candidate@.age),
    ensures
        alive == included(candidate@, m),
{
    let ghost c = candidate@;
    let ghost own = choose|q: int| 0 <= q < ages@.len() && ages@[q] == c.age;
    proof {
        assert(ages@.to_set().contains(c.age));
    }
    let mut j: usize = 0;
    while j < ages.len()
        invariant
            j <= ages@.len(),
            forall|q: int|
                0 <= q < j ==> ages@[q] != c.age && m[#[trigger] ages@[q]].ratio < c.ratio,
            ages_sorted(ages@),
            records_map(views(record@), m),
            forall|k: u16| ages@.to_set().contains(k) <==> #[trigger] m.dom().contains(k),
            forall|k: u16| #[trigger] m.dom().contains(k) ==> m[k].age == k,
            c == candidate@,
            0 <= own < ages@.len() && ages@[own] == c.age,
        decreases ages@.len() - j,
    {
        let k = ages[j];
        proof {
            assert(ages@.to_set().contains(k));
            if own < j {
                assert(ages@[own] != c.age);
                assert(false);
            }
            if own > j {
                assert(ages@[j as int] < ages@[own]);
            }
        }
        if k == candidate.age {
            proof {
                assert forall|k2: u16| (#[trigger] m.dom().contains(k2)) && k2 < c.age implies
                    m[k2].ratio < c.ratio by {
                    let q = choose|q: int| 0 <= q < ages@.len() && ages@[q] == k2;
                    if q > j {
                        assert(ages@[j as int] < ages@[q]);
                        assert(false);
                    }
                    if q == j {
                        assert(false);
                    }
                }
            }
            return true;
        }
        let bi = match find_by_age(record, k) {
            Some(b) => b,
            None => {
                proof {
                    assert(m.dom().contains(k));
                    let w = choose|w: int|
                        0 <= w < views(record@).len() && (#[trigger] views(record@)[w]).age == k;
                    assert(false);
                }
                0
            },
        };
        proof {
            assert(m[k] == views(record@)[bi as int]);
        }
        if candidate.is_eliminated_by(&record[bi]) {
            proof {
                assert(k < c.age);
                assert(m[k].ratio >= c.ratio);
                assert(!included(c, m));
            }
            return false;
        }
        proof {
            assert(k < c.age);
            assert(m[k].ratio < c.ratio);
        }
        j = j + 1;
    }
    proof {
        assert(false);
    }
    false
}

/// Select the champions among `participants`.
///
/// The result is fully determined by the input (see
/// [`is_selection`](crate::model::is_selection)): first each category's
/// best-rated entrant is found, entrants tying the current best of their
/// category being recorded as draws; the bests and the draw participants
/// together form the candidates, deduplicated and ordered ascending by age
/// category, then rating, then name; and a candidate is kept exactly when
/// no strictly lower recorded category holds a best rated at least as high.
#[verifier::loop_isolation(false)]
pub fn get_champions(participants: Vec<ChessPlayer>) -> (champions: Vec<ChessPlayer>)
    ensures
        is_selection(views(participants@), views(champions@)),
{
    let ghost ps = views(participants@);

    // Per-category reduction.
    let mut record: Vec<ChessPlayer> = Vec::new();
    let mut draws: Vec<ChessPlayer> = Vec::new();
    proof {
        assert(ps.take(0) =~= Seq::<Player>::empty());
        assert(views(record@) =~= Seq::<Player>::empty());
        assert(views(draws@) =~= Seq::<Player>::empty());
    }
    let mut idx: usize = 0;
    while idx < participants.len()
        invariant
            idx <= participants@.len(),
            records_map(views(record@), bests_after(ps.take(idx as int))),
            views(draws@) == draws_after(ps.take(idx as int)),
        decreases participants@.len() - idx,
    {
        let ghost m_prev = bests_after(ps.take(idx as int));
        proof {
            assert(ps.take(idx + 1).drop_last() =~= ps.take(idx as int));
            assert(ps.take(idx + 1).last() == ps[idx as int]);
        }
        let p = &participants[idx];
        match find_by_age(&record, p.age) {
            None => {
                proof {
                    if m_prev.dom().contains(p@.age) {
                        let w = choose|w: int|
                            0 <= w < views(record@).len() && (#[trigger] views(record@)[w]).age
                                == p@.age;
                        assert(false);
                    }
                }
                let ghost r_prev = views(record@);
                record.push(p.duplicate());
                proof {
                    assert(views(record@) =~= r_prev.push(p@));
                    assert(bests_after(ps.take(idx + 1)) == m_prev.insert(p@.age, p@));
                    lemma_records_push(r_prev, m_prev, p@);
                    assert(draws_after(ps.take(idx + 1)) == views(draws@));
                }
            },
            Some(j) => {
                proof {
                    assert(views(record@)[j as int] == m_prev[p@.age]);
                }
                if p.is_draw_against_player(&record[j]) {
                    let ghost d_prev = views(draws@);
                    let former = record[j].duplicate();
                    draws.push(former);
                    draws.push(p.duplicate());
                    proof {
                        assert(views(draws@) =~= d_prev.push(m_prev[p@.age]).push(p@));
                        assert(draws_after(ps.take(idx + 1)) == views(draws@));
                        assert(bests_after(ps.take(idx + 1)) == m_prev);
                    }
                } else {
                    let ghost r_prev = views(record@);
                    let strongest = p.duplicate().match_up(record[j].duplicate());
                    record.set(j, strongest);
                    proof {
                        let winner = stronger(p@, m_prev[p@.age]);
                        assert(bests_after(ps.take(idx + 1)) == m_prev.insert(p@.age, winner));
                        assert(views(record@) =~= r_prev.update(j as int, winner));
                        assert(r_prev[j as int].age == p@.age && winner.age == p@.age);
                        lemma_records_update(r_prev, m_prev, j as int, winner);
                        assert(draws_after(ps.take(idx + 1)) == views(draws@));
                    }
                }
            },
        }
        idx = idx + 1;
    }
    proof {
        assert(ps.take(participants@.len() as int) =~= ps);
    }
    let ghost m = bests_after(ps);

    // Candidate assembly.
    let mut cands: Vec<ChessPlayer> = Vec::new();
    proof {
        assert(views(cands@) =~= Seq::<Player>::empty());
        assert(views(cands@).to_set() =~= Set::<Player>::empty());
    }
    let mut i: usize = 0;
    while i < record.len()
        invariant
            i <= record@.len(),
            strictly_increasing(views(cands@)),
            views(cands@).to_set() == views(record@).take(i as int).to_set(),
        decreases record@.len() - i,
    {
        proof {
            assert(views(record@).take(i + 1) =~= views(record@).take(i as int).push(
                views(record@)[i as int],
            ));
            views(record@).take(i as int).lemma_push_to_set_commute(views(record@)[i as int]);
        }
        insert_candidate(&mut cands, record[i].duplicate());
        i = i + 1;
    }
    proof {
        assert(views(record@).take(record@.len() as int) =~= views(record@));
    }
    let mut i: usize = 0;
    while i < draws.len()
        invariant
            i <= draws@.len(),
            strictly_increasing(views(cands@)),
            views(cands@).to_set() == views(record@).to_set().union(
                views(draws@).take(i as int).to_set(),
            ),
        decreases draws@.len() - i,
    {
        proof {
            assert(views(draws@).take(i + 1) =~= views(draws@).take(i as int).push(
                views(draws@)[i as int],
            ));
            views(draws@).take(i as int).lemma_push_to_set_commute(views(draws@)[i as int]);
            assert(views(record@).to_set().union(views(draws@).take(i + 1).to_set())
                =~= views(record@).to_set().union(views(draws@).take(i as int).to_set()).insert(
                views(draws@)[i as int],
            ));
        }
        insert_candidate(&mut cands, draws[i].duplicate());
        i = i + 1;
    }
    proof {
        assert(views(draws@).take(draws@.len() as int) =~= views(draws@));
        lemma_records_values(views(record@), m);
        assert(views(cands@).to_set() =~= candidate_set(ps));
    }

    // Elimination sweep.
    let mut ages_list: Vec<u16> = Vec::new();
    proof {
        assert(ages_list@.to_set() =~= Set::<u16>::empty());
    }
    let mut i: usize = 0;
    while i < record.len()
        invariant
            i <= record@.len(),
            ages_sorted(ages_list@),
            forall|k: u16| #[trigger]
                ages_list@.to_set().contains(k) ==> exists|w: int|
                    0 <= w < i && (#[trigger] views(record@)[w]).age == k,
            forall|w: int|
                0 <= w < i ==> ages_list@.to_set().contains((#[trigger] views(record@)[w]).age),
        decreases record@.len() - i,
    {
        let ghost a_prev = ages_list@;
        insert_age(&mut ages_list, record[i].age);
        proof {
            assert(ages_list@.to_set() == a_prev.to_set().insert(views(record@)[i as int].age));
            assert forall|k: u16| #[trigger] ages_list@.to_set().contains(k) implies exists|w: int|
                0 <= w < i + 1 && (#[trigger] views(record@)[w]).age == k by {
                if k == views(record@)[i as int].age {
                    assert(0 <= i < i + 1 && views(record@)[i as int].age == k);
                } else {
                    assert(a_prev.to_set().contains(k));
                }
            }
        }
        i = i + 1;
    }
    proof {
        assert forall|k: u16| ages_list@.to_set().contains(k) <==> #[trigger] m.dom().contains(
            k,
        ) by {
            if ages_list@.to_set().contains(k) {
                let w = choose|w: int|
                    0 <= w < record@.len() && (#[trigger] views(record@)[w]).age == k;
                assert(m.dom().contains(views(record@)[w].age));
            }
            if m.dom().contains(k) {
                let w = choose|w: int|
                    0 <= w < views(record@).len() && (#[trigger] views(record@)[w]).age == k;
            }
        }
        assert forall|k: u16| #[trigger] m.dom().contains(k) implies m[k].age == k by {
            lemma_best_age_matches_key(ps, k);
        }
    }
    let mut champions: Vec<ChessPlayer> = Vec::new();
    proof {
        assert(views(champions@) =~= Seq::<Player>::empty());
    }
    let mut i: usize = 0;
    while i < cands.len()
        invariant
            i <= cands@.len(),
            strictly_increasing(views(champions@)),
            forall|p: Player| #[trigger]
                views(champions@).contains(p) <==> views(cands@).take(i as int).contains(p)
                    && included(p, m),
        decreases cands@.len() - i,
    {
        let c = &cands[i];
        proof {
            assert(views(cands@)[i as int] == c@);
            assert(views(cands@).contains(c@));
            assert(views(cands@).to_set().contains(c@));
            lemma_candidate_age_recorded(ps, c@);
        }
        let ghost ch_prev = views(champions@);
        let keep = survives(c, &ages_list, &record, Ghost(m));
        if keep {
            champions.push(c.duplicate());
            proof {
                assert(views(champions@) =~= ch_prev.push(c@));
            }
        }
        proof {
            assert(views(cands@).take(i + 1) =~= views(cands@).take(i as int).push(c@));
            assert forall|p: Player| #[trigger] views(champions@).contains(p) implies views(
                cands@,
            ).take(i + 1).contains(p) && included(p, m) by {
                if keep && p == c@ {
                    assert(views(cands@).take(i + 1)[i as int] == c@);
                } else {
                    assert(ch_prev.contains(p));
                    let q = choose|q: int|
                        0 <= q < views(cands@).take(i as int).len() && views(cands@).take(
                            i as int,
                        )[q] == p;
                    assert(views(cands@).take(i + 1)[q] == p);
                }
            }
            assert forall|p: Player|
                views(cands@).take(i + 1).contains(p) && included(p, m) implies #[trigger] views(
                champions@,
            ).contains(p) by {
                let q = choose|q: int|
                    0 <= q < views(cands@).take(i + 1).len() && #[trigger] views(cands@).take(
                        i + 1,
                    )[q] == p;
                if q < i {
                    assert(views(cands@).take(i as int)[q] == p);
                    assert(ch_prev.contains(p));
                    if keep {
                        let w = choose|w: int| 0 <= w < ch_prev.len() && ch_prev[w] == p;
                        assert(views(champions@)[w] == p);
                    }
                } else {
                    assert(p == c@);
                    assert(keep);
                    assert(views(champions@)[views(champions@).len() - 1] == c@);
                }
            }
            if keep {
                assert forall|a: int, b: int|
                    0 <= a < b < views(champions@).len() implies player_lt(
                    views(champions@)[a],
                    views(champions@)[b],
                ) by {
                    if b == views(champions@).len() - 1 {
                        let p = views(champions@)[a];
                        assert(ch_prev.contains(p));
                        let q = choose|q: int|
                            0 <= q < views(cands@).take(i as int).len() && views(cands@).take(
                                i as int,
                            )[q] == p;
                        assert(views(cands@)[q] == p);
                        assert(player_lt(views(cands@)[q], views(cands@)[i as int]));
                    }
                }
            }
        }
        i = i + 1;
    }
    proof {
        assert(views(cands@).take(cands@.len() as int) =~= views(cands@));
        assert forall|p: Player| #[trigger]
            views(champions@).contains(p) <==> candidate_set(ps).contains(p) && included(
            p,
            m,
        ) by {
            if views(cands@).contains(p) {
                assert(views(cands@).to_set().contains(p));
            }
            if candidate_set(ps).contains(p) {
                assert(views(cands@).to_set().contains(p));
            }
        }
    }
    champions
}

} // verus!

