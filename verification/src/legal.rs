//! Check detection, required boards and the enumeration of legal turn plans.

use vstd::prelude::*;

use crate::apply::{applicable, apply_move_partial, is_applicable, lemma_move_keeps_absent, mover_piece, plan_applicable, step, steps};
use crate::attack::{in_check_given, in_check_spec, in_check_with, lim_ok, present_kinds, present_ok, Present, has_kind, kind_absent};
use crate::attack::within;
use crate::geometry::{tables_ok, Tables};
use crate::movegen::{
    contains_move, from_board_move, generate_pseudo_moves_from_board, lemma_no_castling_out_of_check, pseudo_move,
};
use crate::moves::{Move, MoveKind, TurnPlan};
use crate::multiverse::{
    active, board_at, keys_seq, last_t, latest_board, mv_wf, present, Multiverse, MultiverseView,
};
use crate::types::{opposite, BoardId, Color, PieceKind};

verus! {

/// Whether the king of `color` stands attacked on the latest board of some active
/// timeline (direct attack tests: rays, leaps, pawn and king patterns).
pub fn in_check(mv: &Multiverse, color: Color) -> (r: bool)
    requires
        mv_wf(mv@),
    ensures
        r == in_check_spec(mv@, color),
{
    let tb = Tables::new();
    in_check_with(mv, &tb, color)
}

/// Timeline `l` holds a board `color` must move from: its latest board, on an
/// active timeline, at the present, with `color` to move.
pub open spec fn required_at(mv: MultiverseView, color: Color, l: i32) -> bool {
    &&& mv.timelines.contains_key(l)
    &&& active(mv, l as int)
    &&& last_t(mv.timelines[l]) == present(mv)
    &&& latest_board(mv.timelines[l]).to_move == color
}

/// The required boards among the timelines `ks`, in the order of `ks`.
pub open spec fn required_among(mv: MultiverseView, color: Color, ks: Seq<i32>) -> Seq<BoardId>
    decreases ks.len(),
{
    if ks.len() == 0 {
        seq![]
    } else {
        let r = required_among(mv, color, ks.drop_last());
        let l = ks.last();
        if required_at(mv, color, l) {
            r.push(BoardId { l, t: present(mv) as i32 })
        } else {
            r
        }
    }
}

/// The boards `color` must move from this turn, by increasing timeline index.
pub open spec fn required_boards(mv: MultiverseView, color: Color) -> Seq<BoardId> {
    required_among(mv, color, keys_seq(mv))
}

/// Boards where `color` MUST move this turn: latest boards of active timelines that
/// lie at the present and have `color` to move, sorted by (l, t).
pub fn required_source_boards(mv: &Multiverse, color: Color) -> (r: Vec<BoardId>)
    requires
        mv_wf(mv@),
    ensures
        r@ == required_boards(mv@, color),
{
    let p = mv.present_t();
    let ks = mv.timeline_keys();
    let lim = mv.active_limit();
    proof {
        crate::multiverse::lemma_keys_seq_props(mv@);
        crate::multiverse::lemma_view_timelines(*mv);
    }
    let mut out: Vec<BoardId> = Vec::new();
    let mut i: usize = 0;
    while i < ks.len()
        invariant
            i <= ks@.len(),
            ks@ == keys_seq(mv@),
            ks@.to_set() == mv@.timelines.dom(),
            mv@.timelines.dom() == mv.timelines@.dom(),
            forall|l: i32| #[trigger] mv.timelines@.contains_key(l) ==> mv@.timelines[l] == mv.timelines@[l]@,
            mv_wf(mv@),
            lim_ok(mv@, lim),
            p == present(mv@),
            out@ == required_among(mv@, color, ks@.take(i as int)),
        decreases ks@.len() - i,
    {
        let l = ks[i];
        proof {
            assert(ks@.to_set().contains(l));
            assert(ks@.take(i + 1).drop_last() =~= ks@.take(i as int));
        }
        let tl = mv.timelines.get(&l).unwrap();
        let t = tl.latest_t();
        let b = &tl.boards[tl.boards.len() - 1];
        if within(l, lim) && t == p && b.to_move == color {
            out.push(BoardId { l, t });
        }
        i = i + 1;
    }
    proof {
        assert(ks@.take(ks@.len() as int) =~= ks@);
    }
    out
}

/// Cap on the number of turn plans enumerated for one position.
pub const MAX_PLANS_PER_POSITION: usize = 2048;

/// Cap on the number of moves in one turn plan.
pub const MAX_TURN_LENGTH: usize = 6;

/// `plan` makes one pseudo-legal move of `color` from each board of `req`, in order,
/// each on the multiverse the earlier moves left, and every move can be applied.
pub open spec fn plan_follows(mv: MultiverseView, color: Color, req: Seq<BoardId>, plan: Seq<Move>) -> bool
    decreases plan.len(),
{
    &&& plan.len() == req.len()
    &&& plan.len() > 0 ==> {
        &&& from_board_move(mv, req[0].l as int, req[0].t as int, color, plan[0])
        &&& applicable(mv, plan[0])
        &&& plan_follows(step(mv, plan[0]), color, req.drop_first(), plan.drop_first())
    }
}

/// A legal turn for the side to move: one move from each required board (at most
/// `MAX_TURN_LENGTH` of them), after which no king of the mover is in check.
pub open spec fn legal_plan(mv: MultiverseView, plan: Seq<Move>) -> bool {
    let color = mv.global_to_move;
    let req = required_boards(mv, color);
    &&& req.len() <= MAX_TURN_LENGTH
    &&& plan_follows(mv, color, req, plan)
    &&& !in_check_spec(steps(mv, plan), color)
}

/// A legal turn makes exactly one move from each required board, in order of
/// timeline index: its i-th move starts on the i-th required board and moves a piece
/// of the side to move.
pub proof fn lemma_legal_plan_shape(mv: MultiverseView, p: Seq<Move>)
    requires
        legal_plan(mv, p),
    ensures
        p.len() == required_boards(mv, mv.global_to_move).len(),
        forall|i: int|
            0 <= i < p.len() ==> (#[trigger] p[i]).from.l == required_boards(mv, mv.global_to_move)[i].l
                && p[i].from.t == required_boards(mv, mv.global_to_move)[i].t,
{
    let color = mv.global_to_move;
    lemma_follows_shape(mv, color, required_boards(mv, color), p);
}

proof fn lemma_follows_shape(mv: MultiverseView, color: Color, req: Seq<BoardId>, p: Seq<Move>)
    requires
        plan_follows(mv, color, req, p),
    ensures
        p.len() == req.len(),
        forall|i: int| 0 <= i < p.len() ==> (#[trigger] p[i]).from.l == req[i].l && p[i].from.t == req[i].t,
    decreases p.len(),
{
    if p.len() > 0 {
        lemma_follows_shape(step(mv, p[0]), color, req.drop_first(), p.drop_first());
        assert forall|i: int| 0 <= i < p.len() implies (#[trigger] p[i]).from.l == req[i].l && p[i].from.t == req[i].t by {
            if i > 0 {
                assert(p[i] == p.drop_first()[i - 1]);
                assert(req[i] == req.drop_first()[i - 1]);
            }
        }
    }
}

/// No legal turn starts by castling out of check: when the first move of a legal plan
/// castles, the side to move is not in check before it.
pub proof fn lemma_legal_turn_never_castles_out_of_check(mv: MultiverseView, p: Seq<Move>)
    requires
        legal_plan(mv, p),
        p.len() > 0,
        p[0].kind == MoveKind::CastleKing || p[0].kind == MoveKind::CastleQueen,
    ensures
        !in_check_spec(mv, mv.global_to_move),
{
    let color = mv.global_to_move;
    let req = required_boards(mv, color);
    assert(from_board_move(mv, req[0].l as int, req[0].t as int, color, p[0]));
    let b = board_at(mv, req[0].l as int, req[0].t as int)->0;
    lemma_no_castling_out_of_check(mv, b, req[0].l as int, req[0].t as int, color, true, p[0]);
}

/// No pseudo-legal move castles out of check.
pub proof fn lemma_pseudo_moves_never_castle_out_of_check(mv: MultiverseView, color: Color, enforce: bool, m: Move)
    requires
        pseudo_move(mv, color, enforce, m),
        m.kind == MoveKind::CastleKing || m.kind == MoveKind::CastleQueen,
    ensures
        !in_check_spec(mv, color),
{
    let tl = mv.timelines[m.from.l];
    lemma_no_castling_out_of_check(mv, latest_board(tl), m.from.l as int, last_t(tl), color, enforce, m);
}

/// Every legal plan can be applied move by move, and keeps to the turn-length cap.
pub proof fn lemma_legal_applicable(mv: MultiverseView, p: Seq<Move>)
    requires
        legal_plan(mv, p),
    ensures
        plan_applicable(mv, p),
        p.len() <= MAX_TURN_LENGTH,
{
    let color = mv.global_to_move;
    lemma_follows_applicable(mv, color, required_boards(mv, color), p);
}

proof fn lemma_follows_applicable(mv: MultiverseView, color: Color, req: Seq<BoardId>, p: Seq<Move>)
    requires
        plan_follows(mv, color, req, p),
    ensures
        plan_applicable(mv, p),
    decreases p.len(),
{
    if p.len() > 0 {
        lemma_follows_applicable(step(mv, p[0]), color, req.drop_first(), p.drop_first());
    }
}


/// A copy of a plan.
pub(crate) fn copy_plan(v: &Vec<Move>) -> (r: Vec<Move>)
    ensures
        r@ == v@,
{
    let mut r: Vec<Move> = Vec::new();
    let mut i: usize = 0;
    while i < v.len()
        invariant
            i <= v@.len(),
            r@ == v@.subrange(0, i as int),
        decreases v@.len() - i,
    {
        r.push(v[i]);
        i = i + 1;
        proof {
            assert(v@.subrange(0, i as int) =~= v@.subrange(0, (i - 1) as int).push(v@[i - 1]));
        }
    }
    proof {
        assert(v@.subrange(0, v@.len() as int) =~= v@);
    }
    r
}

/// Whether some entry of `out` is `p`.
pub open spec fn has_plan(out: Seq<Vec<Move>>, p: Seq<Move>) -> bool {
    exists|i: int| 0 <= i < out.len() && #[trigger] out[i]@ == p
}

/// A completion of the prefix `plan` from `cur`: the moves for the remaining required
/// boards `req[idx..]`, leaving the mover out of check.
pub open spec fn completes(cur: MultiverseView, color: Color, req: Seq<BoardId>, idx: int, s: Seq<Move>) -> bool {
    plan_follows(cur, color, req.skip(idx), s) && !in_check_spec(steps(cur, s), color)
}

/// `e` is the prefix `prefix` followed by a completion from `cur` of the remaining
/// required boards.
pub open spec fn extends(
    cur: MultiverseView,
    color: Color,
    req: Seq<BoardId>,
    idx: int,
    prefix: Seq<Move>,
    e: Seq<Move>,
) -> bool {
    &&& req.len() <= MAX_TURN_LENGTH
    &&& prefix.len() <= e.len()
    &&& e.subrange(0, prefix.len() as int) == prefix
    &&& completes(cur, color, req, idx, e.skip(prefix.len() as int))
}

/// The plans of `plans` from position `n` on are pairwise different.
pub open spec fn distinct_plans_from(plans: Seq<Vec<Move>>, n: int) -> bool {
    forall|a: int, b: int| n <= a < b < plans.len() ==> (#[trigger] plans[a])@ != (#[trigger] plans[b])@
}

proof fn lemma_has_plan_grow(a: Seq<Vec<Move>>, b: Seq<Vec<Move>>, p: Seq<Move>)
    requires
        a.len() <= b.len(),
        b.subrange(0, a.len() as int) == a,
        has_plan(a, p),
    ensures
        has_plan(b, p),
{
    let i = choose|i: int| 0 <= i < a.len() && #[trigger] a[i]@ == p;
    assert(b[i] == b.subrange(0, a.len() as int)[i]);
}

/// Depth-first enumeration: extends `plan` (moves for `req[..idx]`, leading from the
/// root to `cur`) with one move from each remaining required board.
fn dfs_plans(
    cur: &Multiverse,
    tb: &Tables,
    color: Color,
    req: &Vec<BoardId>,
    idx: usize,
    plan: &mut Vec<Move>,
    out: &mut Vec<Vec<Move>>,
    ps: Present,
)
    requires
        mv_wf(cur@),
        tables_ok(tb),
        present_ok(cur@, opposite(color), ps),
        idx <= req@.len(),
        idx <= MAX_TURN_LENGTH,
        old(plan)@.len() == idx,
        old(out)@.len() <= MAX_PLANS_PER_POSITION,
    ensures
        final(plan)@ == old(plan)@,
        final(out)@.len() <= MAX_PLANS_PER_POSITION,
        old(out)@.len() <= final(out)@.len(),
        final(out)@.subrange(0, old(out)@.len() as int) == old(out)@,
        forall|k: int|
            old(out)@.len() <= k < final(out)@.len() ==> extends(
                cur@,
                color,
                req@,
                idx as int,
                old(plan)@,
                #[trigger] final(out)@[k]@,
            ),
        final(out)@.len() < MAX_PLANS_PER_POSITION && req@.len() <= MAX_TURN_LENGTH ==> forall|s: Seq<Move>|
            completes(cur@, color, req@, idx as int, s) ==> has_plan(final(out)@, old(plan)@ + s),
        distinct_plans_from(final(out)@, old(out)@.len() as int),
    decreases req@.len() - idx,
{
    if out.len() >= MAX_PLANS_PER_POSITION {
        return;
    }
    if idx >= req.len() {
        proof {
            assert(req@.skip(idx as int) =~= Seq::<BoardId>::empty());
        }
        if !in_check_given(cur, tb, color, ps) {
            let p = copy_plan(plan);
            let ghost before = out@;
            out.push(p);
            proof {
                assert(completes(cur@, color, req@, idx as int, Seq::<Move>::empty()));
                assert(old(plan)@ + Seq::<Move>::empty() =~= old(plan)@);
                assert(p@.skip(idx as int) =~= Seq::<Move>::empty());
                assert(p@.subrange(0, idx as int) =~= p@);
                assert(extends(cur@, color, req@, idx as int, old(plan)@, out@[before.len() as int]@));
                assert(out@.subrange(0, before.len() as int) =~= before);
                assert forall|s: Seq<Move>| completes(cur@, color, req@, idx as int, s) implies has_plan(
                    out@,
                    old(plan)@ + s,
                ) by {
                    assert(s =~= Seq::<Move>::empty());
                    assert(out@[before.len() as int]@ == old(plan)@ + s);
                }
            }
        } else {
            proof {
                assert forall|s: Seq<Move>| !completes(cur@, color, req@, idx as int, s) by {
                    if plan_follows(cur@, color, req@.skip(idx as int), s) {
                        assert(s.len() == 0);
                        assert(s =~= Seq::<Move>::empty());
                    }
                }
            }
        }
        return;
    }
    if plan.len() >= MAX_TURN_LENGTH {
        return;
    }
    let target = req[idx];
    let lim = cur.active_limit();
    let moves = generate_pseudo_moves_from_board(cur, tb, lim, target, color);
    let mut j: usize = 0;
    let ghost out0 = out@;
    proof {
        assert(req@.skip(idx as int)[0] == target);
        assert(req@.skip(idx as int).drop_first() =~= req@.skip(idx + 1));
    }
    while j < moves.len()
        invariant
            j <= moves@.len(),
            mv_wf(cur@),
            tables_ok(tb),
            present_ok(cur@, opposite(color), ps),
            idx < req@.len(),
            idx < MAX_TURN_LENGTH,
            plan@ == old(plan)@,
            plan@.len() == idx,
            target == req@[idx as int],
            req@.skip(idx as int)[0] == target,
            req@.skip(idx as int).drop_first() == req@.skip(idx + 1),
            forall|m: Move| #[trigger] moves@.contains(m) <==> from_board_move(
                cur@,
                target.l as int,
                target.t as int,
                color,
                m,
            ),
            out0 == old(out)@,
            out@.len() <= MAX_PLANS_PER_POSITION,
            out0.len() <= out@.len(),
            out@.subrange(0, out0.len() as int) == out0,
            forall|k: int|
                out0.len() <= k < out@.len() ==> extends(
                    cur@,
                    color,
                    req@,
                    idx as int,
                    old(plan)@,
                    #[trigger] out@[k]@,
                ),
            out@.len() < MAX_PLANS_PER_POSITION && req@.len() <= MAX_TURN_LENGTH ==> forall|s: Seq<Move>|
                completes(cur@, color, req@, idx as int, s) && (exists|i: int| 0 <= i < j && moves@[i] == s[0])
                    ==> has_plan(out@, old(plan)@ + s),
            moves@.no_duplicates(),
            forall|k: int|
                out0.len() <= k < out@.len() ==> (#[trigger] out@[k])@.len() > idx && exists|i: int|
                    0 <= i < j && out@[k]@[idx as int] == moves@[i],
            distinct_plans_from(out@, out0.len() as int),
        decreases moves@.len() - j,
    {
        if out.len() >= MAX_PLANS_PER_POSITION {
            return;
        }
        let m = moves[j];
        proof {
            assert(moves@.contains(m));
        }
        let ghost out1 = out@;
        if is_applicable(cur, m) {
            let next = apply_move_partial(cur, m);
            proof {
                assert(from_board_move(cur@, target.l as int, target.t as int, color, m));
                assert forall|k: PieceKind| #![trigger has_kind(ps, k)] !has_kind(ps, k) implies kind_absent(next@, opposite(color), k) by {
                    assert(kind_absent(cur@, opposite(color), k));
                    lemma_move_keeps_absent(cur@, m, next@, opposite(color), k);
                }
            }
            plan.push(m);
            let ghost pm = plan@;
            dfs_plans(&next, tb, color, req, idx + 1, plan, out, ps);
            plan.pop();
            proof {
                assert(plan@ =~= old(plan)@);
                assert(pm == old(plan)@.push(m));
                // New entries complete the prefix from `cur`.
                assert forall|k: int| out0.len() <= k < out@.len() implies extends(
                    cur@,
                    color,
                    req@,
                    idx as int,
                    old(plan)@,
                    #[trigger] out@[k]@,
                ) by {
                    if k < out1.len() {
                        assert(out@[k] == out@.subrange(0, out1.len() as int)[k]);
                        assert(out1[k] == out@[k]);
                    } else {
                        let e = out@[k]@;
                        assert(extends(next@, color, req@, idx + 1, pm, e));
                        let s2 = e.skip(idx + 1);
                        let sx = e.skip(idx as int);
                        assert(e[idx as int] == e.subrange(0, idx + 1)[idx as int]);
                        assert(sx[0] == m);
                        assert(sx.drop_first() =~= s2);
                        assert(e.subrange(0, idx as int) =~= e.subrange(0, idx + 1).subrange(0, idx as int));
                        assert(pm.subrange(0, idx as int) =~= old(plan)@);
                        assert(steps(cur@, sx) == steps(step(cur@, m), s2));
                        assert(completes(cur@, color, req@, idx as int, sx));
                    }
                }
                assert(out@.subrange(0, out0.len() as int) =~= out0) by {
                    assert(out@.subrange(0, out1.len() as int) == out1);
                    assert forall|k: int| 0 <= k < out0.len() implies out@.subrange(0, out0.len() as int)[k] == out0[k] by {
                        assert(out@[k] == out@.subrange(0, out1.len() as int)[k]);
                        assert(out1[k] == out1.subrange(0, out0.len() as int)[k]);
                    }
                }
                assert forall|k: int| out0.len() <= k < out@.len() implies (#[trigger] out@[k])@.len() > idx
                    && exists|i: int| 0 <= i < j + 1 && out@[k]@[idx as int] == moves@[i] by {
                    if k < out1.len() {
                        assert(out@[k] == out@.subrange(0, out1.len() as int)[k]);
                        assert(out1[k] == out@[k]);
                        let i = choose|i: int| 0 <= i < j && out1[k]@[idx as int] == moves@[i];
                    } else {
                        let e = out@[k]@;
                        assert(extends(next@, color, req@, idx + 1, pm, e));
                        assert(e[idx as int] == e.subrange(0, idx + 1)[idx as int]);
                        assert(e[idx as int] == moves@[j as int]);
                    }
                }
                assert(distinct_plans_from(out@, out0.len() as int)) by {
                    assert forall|a: int, b: int| out0.len() <= a < b < out@.len() implies (#[trigger] out@[a])@
                        != (#[trigger] out@[b])@ by {
                        if b < out1.len() {
                            assert(out@[a] == out@.subrange(0, out1.len() as int)[a]);
                            assert(out@[b] == out@.subrange(0, out1.len() as int)[b]);
                            assert(out1[a]@ != out1[b]@);
                        } else if a >= out1.len() {
                        } else {
                            assert(out@[a] == out@.subrange(0, out1.len() as int)[a]);
                            let i = choose|i: int| 0 <= i < j && out1[a]@[idx as int] == moves@[i];
                            let e = out@[b]@;
                            assert(extends(next@, color, req@, idx + 1, pm, e));
                            assert(e[idx as int] == e.subrange(0, idx + 1)[idx as int]);
                            assert(e[idx as int] == moves@[j as int]);
                            assert(moves@[i] != moves@[j as int]);
                        }
                    }
                }
                if out@.len() < MAX_PLANS_PER_POSITION && req@.len() <= MAX_TURN_LENGTH {
                    assert forall|s: Seq<Move>|
                        completes(cur@, color, req@, idx as int, s) && (exists|i: int| 0 <= i < j + 1 && moves@[i] == s[0])
                            implies has_plan(out@, old(plan)@ + s) by {
                        let i = choose|i: int| 0 <= i < j + 1 && moves@[i] == s[0];
                        if i < j {
                            lemma_has_plan_grow(out1, out@, old(plan)@ + s);
                        } else {
                            assert(s.len() > 0);
                            let s2 = s.drop_first();
                            assert(s =~= seq![m] + s2);
                            assert(completes(next@, color, req@, idx + 1, s2));
                            assert(pm + s2 =~= old(plan)@ + s);
                        }
                    }
                }
            }
        } else {
            proof {
                if out@.len() < MAX_PLANS_PER_POSITION && req@.len() <= MAX_TURN_LENGTH {
                    assert forall|s: Seq<Move>|
                        completes(cur@, color, req@, idx as int, s) && (exists|i: int| 0 <= i < j + 1 && moves@[i] == s[0])
                            implies has_plan(out@, old(plan)@ + s) by {
                        let i = choose|i: int| 0 <= i < j + 1 && moves@[i] == s[0];
                        if i == j {
                            assert(applicable(cur@, s[0]));
                        }
                    }
                }
            }
        }
        j = j + 1;
    }
    proof {
        if out@.len() < MAX_PLANS_PER_POSITION && req@.len() <= MAX_TURN_LENGTH {
            assert forall|s: Seq<Move>| completes(cur@, color, req@, idx as int, s) implies has_plan(
                out@,
                old(plan)@ + s,
            ) by {
                assert(s.len() > 0);
                assert(moves@.contains(s[0]));
                let i = choose|i: int| 0 <= i < moves@.len() && moves@[i] == s[0];
            }
        }
    }
}

/// All legal turn plans for the side to move, up to `MAX_PLANS_PER_POSITION` of them,
/// each once: one move from each required board (at most `MAX_TURN_LENGTH` boards),
/// and no king of the mover in check when the turn ends. Below the cap, every legal
/// plan is listed.
pub fn generate_legal_turn_plans(mv: &Multiverse) -> (r: Vec<TurnPlan>)
    requires
        mv_wf(mv@),
    ensures
        r@.len() <= MAX_PLANS_PER_POSITION,
        forall|i: int| 0 <= i < r@.len() ==> legal_plan(mv@, #[trigger] r@[i]@),
        r@.len() < MAX_PLANS_PER_POSITION ==> forall|p: Seq<Move>| legal_plan(mv@, p) ==> has_plan(r@, p),
        distinct_plans_from(r@, 0),
{
    let tb = Tables::new();
    legal_plans_with(mv, &tb)
}

/// `generate_legal_turn_plans` with the direction tables handed in.
pub(crate) fn legal_plans_with(mv: &Multiverse, tb: &Tables) -> (r: Vec<TurnPlan>)
    requires
        mv_wf(mv@),
        tables_ok(tb),
    ensures
        r@.len() <= MAX_PLANS_PER_POSITION,
        forall|i: int| 0 <= i < r@.len() ==> legal_plan(mv@, #[trigger] r@[i]@),
        r@.len() < MAX_PLANS_PER_POSITION ==> forall|p: Seq<Move>| legal_plan(mv@, p) ==> has_plan(r@, p),
        distinct_plans_from(r@, 0),
{
    let color = mv.global_to_move;
    let mut out: Vec<TurnPlan> = Vec::new();
    let mut plan: TurnPlan = Vec::new();
    let required_start = required_source_boards(mv, color);
    let ps = present_kinds(mv, color.flip());
    dfs_plans(mv, tb, color, &required_start, 0, &mut plan, &mut out, ps);
    proof {
        let req = required_start@;
        assert(req.skip(0) =~= req);
        assert forall|i: int| 0 <= i < out@.len() implies legal_plan(mv@, #[trigger] out@[i]@) by {
            assert(extends(mv@, color, req, 0, Seq::<Move>::empty(), out@[i]@));
            assert(out@[i]@.skip(0) =~= out@[i]@);
        }
        if out@.len() < MAX_PLANS_PER_POSITION {
            assert forall|p: Seq<Move>| legal_plan(mv@, p) implies has_plan(out@, p) by {
                assert(completes(mv@, color, req, 0, p));
                assert(Seq::<Move>::empty() + p =~= p);
            }
        }
    }
    out
}

/// The first move of some plan of `plans`.
pub open spec fn first_move_of(plans: Seq<Vec<Move>>, m: Move) -> bool {
    exists|i: int| 0 <= i < plans.len() && #[trigger] plans[i]@.len() > 0 && plans[i]@[0] == m
}

/// The distinct first moves of `plans`.
fn first_moves(plans: &Vec<TurnPlan>) -> (r: Vec<Move>)
    ensures
        r@.no_duplicates(),
        forall|m: Move| r@.contains(m) <==> first_move_of(plans@, m),
{
    let mut out: Vec<Move> = Vec::new();
    let mut i: usize = 0;
    while i < plans.len()
        invariant
            i <= plans@.len(),
            out@.no_duplicates(),
            forall|m: Move| out@.contains(m) <==> first_move_of(plans@.take(i as int), m),
        decreases plans@.len() - i,
    {
        let ghost before = out@;
        let plan = &plans[i];
        if plan.len() > 0 {
            let first = plan[0];
            if !contains_move(&out, first) {
                out.push(first);
            }
        }
        proof {
            assert forall|m: Move| out@.contains(m) <==> first_move_of(plans@.take(i + 1), m) by {
                if first_move_of(plans@.take(i + 1), m) {
                    let k = choose|k: int| 0 <= k < plans@.take(i + 1).len() && #[trigger] plans@.take(i + 1)[k]@.len() > 0 && plans@.take(i + 1)[k]@[0] == m;
                    if k < i {
                        assert(plans@.take(i as int)[k] == plans@.take(i + 1)[k]);
                        assert(first_move_of(plans@.take(i as int), m));
                        assert(before.contains(m));
                        let j = choose|j: int| 0 <= j < before.len() && before[j] == m;
                        assert(out@[j] == m);
                    } else {
                        assert(plans@.take(i + 1)[k] == plans@[i as int]);
                        if !before.contains(m) {
                            assert(out@[out@.len() - 1] == m);
                        } else {
                            let j = choose|j: int| 0 <= j < before.len() && before[j] == m;
                            assert(out@[j] == m);
                        }
                    }
                }
                if out@.contains(m) {
                    let j = choose|j: int| 0 <= j < out@.len() && out@[j] == m;
                    if j < before.len() {
                        assert(before[j] == m);
                        assert(before.contains(m));
                        let k = choose|k: int| 0 <= k < plans@.take(i as int).len() && #[trigger] plans@.take(i as int)[k]@.len() > 0 && plans@.take(i as int)[k]@[0] == m;
                        assert(plans@.take(i + 1)[k] == plans@.take(i as int)[k]);
                    } else {
                        assert(plans@.take(i + 1)[i as int] == plans@[i as int]);
                    }
                }
            }
        }
        i = i + 1;
    }
    proof {
        assert(plans@.take(plans@.len() as int) =~= plans@);
    }
    out
}

/// Plans as `generate_legal_turn_plans` returns them for `mv`: at most the cap, all
/// legal and different, and every legal plan among them when the cap is not reached.
pub open spec fn plans_of(mv: MultiverseView, plans: Seq<Vec<Move>>) -> bool {
    &&& plans.len() <= MAX_PLANS_PER_POSITION
    &&& distinct_plans_from(plans, 0)
    &&& forall|i: int| 0 <= i < plans.len() ==> legal_plan(mv, #[trigger] plans[i]@)
    &&& plans.len() < MAX_PLANS_PER_POSITION ==> forall|p: Seq<Move>| legal_plan(mv, p) ==> has_plan(plans, p)
}

/// The distinct first moves of the legal turn plans (the plans that
/// `generate_legal_turn_plans` lists). `color` is not consulted: the side to move
/// is the multiverse's.
pub fn generate_legal_moves(mv: &Multiverse, color: Color) -> (r: Vec<Move>)
    requires
        mv_wf(mv@),
    ensures
        r@.no_duplicates(),
        forall|m: Move| #[trigger] r@.contains(m) ==> exists|p: Seq<Move>| legal_plan(mv@, p) && p.len() > 0 && p[0] == m,
        exists|plans: Seq<Vec<Move>>| plans_of(mv@, plans) && forall|m: Move| #[trigger] r@.contains(m) <==> first_move_of(plans, m),
{
    let plans = generate_legal_turn_plans(mv);
    let r = first_moves(&plans);
    proof {
        assert(plans_of(mv@, plans@));
        assert forall|m: Move| #[trigger] r@.contains(m) implies exists|p: Seq<Move>| legal_plan(mv@, p) && p.len() > 0 && p[0] == m by {
            let k = choose|k: int| 0 <= k < plans@.len() && #[trigger] plans@[k]@.len() > 0 && plans@[k]@[0] == m;
            assert(legal_plan(mv@, plans@[k]@));
        }
    }
    r
}

} // verus!
