//! Counting turn sequences of a given length (perft), a check on move generation.

use vstd::prelude::*;

use crate::apply::{apply_turn, turn_result};
use crate::legal::{generate_legal_turn_plans, lemma_legal_applicable, plans_of};
use crate::moves::Move;
use crate::multiverse::{mv_wf, Multiverse, MultiverseView};

verus! {

/// The sum of `cs`, wrapping at 2^64 as a release build adds.
pub open spec fn wrap_sum(cs: Seq<u64>) -> u64
    decreases cs.len(),
{
    if cs.len() == 0 {
        0
    } else {
        wrap_sum(cs.drop_last()).wrapping_add(cs.last())
    }
}

/// `n` counts the turn sequences of length `depth` from `mv`: 1 at depth 0; at depth 1
/// the number of plans that generation lists; deeper, the sum of the counts of the
/// positions that the listed plans lead to.
pub open spec fn perft_count(mv: MultiverseView, depth: nat, n: u64) -> bool
    decreases depth,
{
    if depth == 0 {
        n == 1
    } else {
        exists|plans: Seq<Vec<Move>>|
            #[trigger] plans_of(mv, plans) && if depth == 1 {
                n == plans.len()
            } else {
                exists|cs: Seq<u64>|
                    cs.len() == plans.len() && n == #[trigger] wrap_sum(cs) && forall|i: int|
                        0 <= i < plans.len() ==> perft_count(
                            turn_result(mv, plans[i]@),
                            (depth - 1) as nat,
                            #[trigger] cs[i],
                        )
            }
    }
}

/// The number of turn sequences of `depth` turns from `mv`, following the plans that
/// `generate_legal_turn_plans` lists at every step.
pub fn perft(mv: &Multiverse, depth: u32) -> (r: u64)
    requires
        mv_wf(mv@),
    ensures
        perft_count(mv@, depth as nat, r),
    decreases depth,
{
    if depth == 0 {
        return 1;
    }
    let plans = generate_legal_turn_plans(mv);
    proof {
        assert(plans_of(mv@, plans@));
    }
    if depth == 1 {
        return plans.len() as u64;
    }
    let mut total: u64 = 0;
    let ghost mut cs: Seq<u64> = seq![];
    let mut i: usize = 0;
    while i < plans.len()
        invariant
            i <= plans@.len(),
            cs.len() == i,
            total == wrap_sum(cs),
            mv_wf(mv@),
            plans_of(mv@, plans@),
            depth >= 2,
            forall|k: int|
                0 <= k < i ==> perft_count(
                    turn_result(mv@, plans@[k]@),
                    (depth - 1) as nat,
                    #[trigger] cs[k],
                ),
        decreases plans@.len() - i,
    {
        proof {
            lemma_legal_applicable(mv@, plans@[i as int]@);
        }
        let child = apply_turn(mv, &plans[i]);
        let c = perft(&child, depth - 1);
        let ghost cs0 = cs;
        proof {
            cs = cs.push(c);
            assert(cs.drop_last() =~= cs0);
            assert forall|k: int| 0 <= k < i + 1 implies perft_count(
                turn_result(mv@, plans@[k]@),
                (depth - 1) as nat,
                #[trigger] cs[k],
            ) by {
                if k < i {
                    assert(cs[k] == cs0[k]);
                }
            }
        }
        total = total.wrapping_add(c);
        i = i + 1;
    }
    proof {
        assert(cs.len() == plans@.len() && total == wrap_sum(cs));
    }
    total
}

} // verus!
