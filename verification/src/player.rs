//! The entrant type and its primitive comparisons.

use crate::model::{chars_lt, is_draw, is_eliminated, player_lt, stronger, Player};
use vstd::prelude::*;
use vstd::string::StrSliceExecFns;

verus! {

/// An entrant: rating (higher is better), age category, and name.
#[derive(Debug)]
pub struct ChessPlayer {
    pub ratio: u16,
    pub age: u16,
    pub name: String,
}

impl View for ChessPlayer {
    type V = Player;

    open spec fn view(&self) -> Player {
        Player { ratio: self.ratio, age: self.age, name: self.name@ }
    }
}

impl PartialEq for ChessPlayer {
    fn eq(&self, other: &Self) -> bool {
        self.ratio == other.ratio && self.age == other.age && self.name == other.name
    }
}

impl vstd::std_specs::cmp::PartialEqSpecImpl for ChessPlayer {
    open spec fn obeys_eq_spec() -> bool {
        true
    }

    open spec fn eq_spec(&self, other: &Self) -> bool {
        self@ == other@
    }
}

/// The abstract values of a sequence of entrants.
pub open spec fn views(s: Seq<ChessPlayer>) -> Seq<Player> {
    s.map_values(|p: ChessPlayer| p@)
}

impl ChessPlayer {
    pub fn new(name: String, ratio: u16, age: u16) -> (player: Self)
        ensures
            player@ == (Player { ratio, age, name: name@ }),
    {
        Self { ratio, name, age }
    }

    /// An independent copy with the same abstract value.
    pub fn duplicate(&self) -> (copy: Self)
        ensures
            copy@ == self@,
    {
        Self { ratio: self.ratio, age: self.age, name: self.name.clone() }
    }

    /// Of this player and `other_player`, the one with the strictly higher
    /// rating; `other_player` on a tie.
    pub fn match_up(self, other_player: Self) -> (winner: Self)
        ensures
            winner@ == stronger(self@, other_player@),
    {
        if self.ratio > other_player.ratio {
            self
        } else {
            other_player
        }
    }

    pub fn is_draw_against_player(&self, other_player: &Self) -> (r: bool)
        ensures
            r == is_draw(self@, other_player@),
    {
        self.ratio == other_player.ratio
    }

    pub fn is_eliminated_by(&self, other_player: &Self) -> (r: bool)
        ensures
            r == is_eliminated(self@, other_player@),
    {
        (self.age >= other_player.age && self.ratio < other_player.ratio) || (self.age
            >= other_player.age && self.ratio == other_player.ratio)
    }

    /// Whether this player comes strictly before `other` in the output
    /// order: by age category, then rating, then name.
    pub fn comes_before(&self, other: &Self) -> (r: bool)
        ensures
            r == player_lt(self@, other@),
    {
        if self.age != other.age {
            self.age < other.age
        } else if self.ratio != other.ratio {
            self.ratio < other.ratio
        } else {
            name_before(self.name.as_str(), other.name.as_str())
        }
    }
}

/// Whether `a` comes strictly before `b` in lexicographic order by code
/// point.
fn name_before(a: &str, b: &str) -> (r: bool)
    ensures
        r == chars_lt(a@, b@),
{
    let a_len = a.unicode_len();
    let b_len = b.unicode_len();
    let mut i: usize = 0;
    proof {
        assert(a@.skip(0) =~= a@);
        assert(b@.skip(0) =~= b@);
    }
    loop
        invariant
            i <= a_len,
            i <= b_len,
            a_len == a@.len(),
            b_len == b@.len(),
            chars_lt(a@, b@) == chars_lt(a@.skip(i as int), b@.skip(i as int)),
        decreases b_len - i,
    {
        if i == b_len {
            proof {
                assert(b@.skip(i as int) =~= Seq::<char>::empty());
            }
            return false;
        }
        if i == a_len {
            proof {
                assert(a@.skip(i as int) =~= Seq::<char>::empty());
            }
            return true;
        }
        let ca = a.get_char(i);
        let cb = b.get_char(i);
        if ca != cb {
            return (ca as u32) < (cb as u32);
        }
        proof {
            assert(a@.skip(i as int).drop_first() =~= a@.skip(i + 1));
            assert(b@.skip(i as int).drop_first() =~= b@.skip(i + 1));
        }
        i = i + 1;
    }
}

} // verus!
