//! Decisions of a game in progress: whether it is over, and whether a turn a player
//! names is one the side to move may play.

use vstd::prelude::*;

use crate::attack::in_check_spec;
use crate::legal::{generate_legal_turn_plans, has_plan, in_check, legal_plan, plans_of};
use crate::moves::{Move, TurnPlan};
use crate::multiverse::{mv_wf, Multiverse};

verus! {

/// Where a game stands for the side to move.
#[derive(Copy, Clone, Debug, PartialEq, Eq, Structural)]
pub enum GameStatus {
    /// The side to move has a legal turn.
    Ongoing,
    /// No legal turn, and a king of the side to move is in check.
    Checkmate,
    /// No legal turn, and no king of the side to move is in check.
    Stalemate,
}

/// Whether the side to move has a legal turn; if not, whether it is mated or
/// stalemated.
pub fn game_status(mv: &Multiverse) -> (r: GameStatus)
    requires
        mv_wf(mv@),
    ensures
        r == GameStatus::Ongoing <==> exists|p: Seq<Move>| legal_plan(mv@, p),
        r == GameStatus::Checkmate <==> (forall|p: Seq<Move>| !legal_plan(mv@, p)) && in_check_spec(
            mv@,
            mv@.global_to_move,
        ),
        r == GameStatus::Stalemate <==> (forall|p: Seq<Move>| !legal_plan(mv@, p)) && !in_check_spec(
            mv@,
            mv@.global_to_move,
        ),
{
    let plans = generate_legal_turn_plans(mv);
    if plans.len() > 0 {
        proof {
            assert(legal_plan(mv@, plans@[0]@));
        }
        GameStatus::Ongoing
    } else {
        proof {
            assert forall|p: Seq<Move>| !legal_plan(mv@, p) by {
                if legal_plan(mv@, p) {
                    assert(has_plan(plans@, p));
                }
            }
        }
        if in_check(mv, mv.global_to_move) {
            GameStatus::Checkmate
        } else {
            GameStatus::Stalemate
        }
    }
}

/// Whether two plans make the same moves.
fn same_plan(a: &TurnPlan, b: &TurnPlan) -> (r: bool)
    ensures
        r == (a@ == b@),
{
    if a.len() != b.len() {
        return false;
    }
    let mut i: usize = 0;
    while i < a.len()
        invariant
            i <= a@.len(),
            a@.len() == b@.len(),
            forall|k: int| 0 <= k < i ==> a@[k] == b@[k],
        decreases a@.len() - i,
    {
        if a[i] != b[i] {
            return false;
        }
        i = i + 1;
    }
    proof {
        assert(a@ =~= b@);
    }
    true
}

/// Whether `plan` is among the turn plans that `generate_legal_turn_plans` lists for
/// `mv`: the check a player's turn must pass before it is played.
pub fn is_listed_turn(mv: &Multiverse, plan: &TurnPlan) -> (r: bool)
    requires
        mv_wf(mv@),
    ensures
        r ==> legal_plan(mv@, plan@),
        exists|plans: Seq<Vec<Move>>| plans_of(mv@, plans) && (r <==> has_plan(plans, plan@)),
{
    let plans = generate_legal_turn_plans(mv);
    proof {
        assert(plans_of(mv@, plans@));
    }
    let mut i: usize = 0;
    while i < plans.len()
        invariant
            i <= plans@.len(),
            plans_of(mv@, plans@),
            forall|k: int| 0 <= k < i ==> (#[trigger] plans@[k])@ != plan@,
        decreases plans@.len() - i,
    {
        if same_plan(&plans[i], plan) {
            proof {
                assert(legal_plan(mv@, plans@[i as int]@));
                assert(has_plan(plans@, plan@));
                assert(plans_of(mv@, plans@));
            }
            return true;
        }
        i = i + 1;
    }
    proof {
        assert(plans_of(mv@, plans@));
        assert(!has_plan(plans@, plan@));
    }
    false
}

} // verus!
