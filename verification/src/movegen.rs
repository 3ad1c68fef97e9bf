//! Move generation for the four-axis multiverse.
//!
//! Axes: x (file), y (rank), t (time), l (timeline). Piece movement generalizes:
//!   Rook: one axis; Bishop: two axes; Unicorn: three; Dragon: four; Queen: any;
//!   King: one step along any axes; Knight: two along one axis and one along another;
//!   Princess: Bishop + Knight; Pawn: forward on y or t, captures on diagonals that
//!   include forward-y; Brawn: a pawn that also captures on forward-t diagonals.
//! Timeline steps only land on boards that exist.

use vstd::prelude::*;

use crate::attack::{
    attacked, coord, in_check_spec, is_attacked, lim_ok, pawn_delta, brawn_t_delta, piece_at_c,
    ray_clear, ray_coord, ray_l, ray_piece, ray_reach, ray_room, ray_step, ray_t, ray_x, ray_y,
    reach, reachable, shift, lemma_piece_none, lemma_piece_some,
};
use crate::board::{in_bounds, on_board, right, sq, Board, CastleSide};
use crate::geometry::{dir_table, is_dir, is_knight_dir, knight_table, tables_ok, Tables};
use crate::moves::{Move, MoveKind};
use crate::multiverse::{active, board_at, keys_seq, last_t, latest_board, mv_wf, piece_at, Multiverse, MultiverseView};
use crate::types::{color_sign, opposite, pawnlike, BoardId, Color, Coord, Piece, PieceKind};

pub use crate::apply::{apply_move, apply_move_partial, apply_turn, apply_turn_with_history};
pub use crate::legal::{
    generate_legal_moves, generate_legal_turn_plans, in_check, required_source_boards,
    MAX_PLANS_PER_POSITION,
};

verus! {

// ---------------------------------------------------------------------------
// Move rules
// ---------------------------------------------------------------------------

/// An ordinary move of `piece` from `src` to `to`.
pub open spec fn simple(src: Coord, to: Coord, piece: Piece, cap: bool) -> Move {
    Move {
        from: src,
        to,
        promotion: None,
        capture: cap,
        mover: piece.color,
        kind: MoveKind::Normal,
    }
}

/// `m` moves `piece` from `src` onto square (l, t, x, y), which exists and holds no
/// piece of the mover; it captures when the square is occupied.
pub open spec fn step_move(
    mv: MultiverseView,
    src: Coord,
    piece: Piece,
    l: int,
    t: int,
    x: int,
    y: int,
    m: Move,
) -> bool {
    &&& reach(mv, l, t, x, y)
    &&& match piece_at(mv, l, t, x, y) {
        Some(p) => p.color != piece.color && m == simple(src, coord(l, t, x, y), piece, true),
        None => m == simple(src, coord(l, t, x, y), piece, false),
    }
}

/// `m` slides from `src` along `d` over empty squares onto the `n`-th square.
pub open spec fn ray_move(mv: MultiverseView, src: Coord, piece: Piece, d: [i32; 4], n: int, m: Move) -> bool {
    n >= 1 && ray_clear(mv, src, d, n) && step_move(
        mv,
        src,
        piece,
        ray_l(src, d, n),
        ray_t(src, d, n),
        ray_x(src, d, n),
        ray_y(src, d, n),
        m,
    )
}

/// Slider move along some direction of `kmin ..= kmax` axes.
pub open spec fn slider_move(
    mv: MultiverseView,
    src: Coord,
    piece: Piece,
    kmin: int,
    kmax: int,
    m: Move,
) -> bool {
    exists|d: [i32; 4], n: int| is_dir(d, kmin, kmax) && #[trigger] ray_move(mv, src, piece, d, n, m)
}

/// `m` jumps from `src` by `d`.
pub open spec fn jump_move(mv: MultiverseView, src: Coord, piece: Piece, d: [i32; 4], m: Move) -> bool {
    step_move(mv, src, piece, src.l + d@[3], src.t + d@[2], src.x + d@[0], src.y + d@[1], m)
}

pub open spec fn knight_move(mv: MultiverseView, src: Coord, piece: Piece, m: Move) -> bool {
    exists|d: [i32; 4]| is_knight_dir(d) && #[trigger] jump_move(mv, src, piece, d, m)
}

pub open spec fn king_step(mv: MultiverseView, src: Coord, piece: Piece, m: Move) -> bool {
    exists|d: [i32; 4]| is_dir(d, 1, 4) && #[trigger] jump_move(mv, src, piece, d, m)
}

proof fn lemma_push_contains(s: Seq<Move>, x: Move)
    ensures
        forall|m: Move| #[trigger] s.push(x).contains(m) <==> s.contains(m) || m == x,
{
    assert forall|m: Move| #[trigger] s.push(x).contains(m) <==> s.contains(m) || m == x by {
        if s.contains(m) {
            let j = choose|j: int| 0 <= j < s.len() && s[j] == m;
            assert(s.push(x)[j] == m);
        }
        if m == x {
            assert(s.push(x)[s.len() as int] == m);
        }
        if s.push(x).contains(m) {
            let j = choose|j: int| 0 <= j < s.len() + 1 && s.push(x)[j] == m;
            if j < s.len() {
                assert(s[j] == m);
            }
        }
    }
}

/// An ordinary move.
fn mk_simple(from: Coord, to: Coord, piece: Piece, capture: bool) -> (m: Move)
    ensures
        m == simple(from, to, piece, capture),
{
    Move { from, to, promotion: None, capture, mover: piece.color, kind: MoveKind::Normal }
}

/// Slides from `src` along every direction of the table, stopping at the first
/// occupied square (captured when it holds an enemy piece).
fn gen_slider(
    mv: &Multiverse,
    tb: &Tables,
    out: &mut Vec<Move>,
    src: Coord,
    piece: Piece,
    min_axes: u32,
    max_axes: u32,
)
    requires
        mv_wf(mv@),
        tables_ok(tb),
        (min_axes == max_axes && 1 <= min_axes <= 4) || (min_axes == 1 && max_axes == 4),
        on_board(src.x as int, src.y as int),
    ensures
        forall|m: Move|
            #[trigger] final(out)@.contains(m) <==> old(out)@.contains(m) || slider_move(
                mv@,
                src,
                piece,
                min_axes as int,
                max_axes as int,
                m,
            ),
{
    let ds = tb.dirs(min_axes, max_axes);
    let ghost start = out@;
    let mut i: usize = 0;
    while i < ds.len()
        invariant
            i <= ds@.len(),
            dir_table(ds@, min_axes as int, max_axes as int),
            1 <= min_axes <= max_axes <= 4,
            mv_wf(mv@),
            on_board(src.x as int, src.y as int),
            forall|m: Move|
                #[trigger] out@.contains(m) <==> start.contains(m) || exists|j: int, n: int|
                    0 <= j < i && #[trigger] ray_move(mv@, src, piece, ds@[j], n, m),
        decreases ds@.len() - i,
    {
        let d = &ds[i];
        proof {
            assert(is_dir(*d, min_axes as int, max_axes as int));
        }
        let ghost before = out@;
        let mut cur = src;
        let ghost mut n: int = 0;
        loop
            invariant_except_break
                forall|m: Move|
                    #[trigger] out@.contains(m) <==> before.contains(m) || exists|k: int|
                        1 <= k <= n && #[trigger] ray_move(mv@, src, piece, *d, k, m),
            invariant
                mv_wf(mv@),
                is_dir(*d, 1, 4),
                n >= 0,
                cur.l == ray_l(src, *d, n),
                cur.t == ray_t(src, *d, n),
                cur.x == ray_x(src, *d, n),
                cur.y == ray_y(src, *d, n),
                on_board(cur.x as int, cur.y as int),
                ray_clear(mv@, src, *d, n + 1),
            ensures
                forall|m: Move|
                    #[trigger] out@.contains(m) <==> before.contains(m) || exists|k: int|
                        #[trigger] ray_move(mv@, src, piece, *d, k, m),
            decreases ray_room(cur, *d),
        {
            let next = ray_step(src, d, cur, Ghost(n));
            let nc = match next {
                None => {
                    proof {
                        lemma_piece_none(
                            mv@,
                            ray_l(src, *d, n + 1),
                            ray_t(src, *d, n + 1),
                            ray_x(src, *d, n + 1),
                            ray_y(src, *d, n + 1),
                        );
                        lemma_ray_end(mv@, src, piece, *d, n, before, out@);
                    }
                    break ;
                },
                Some(nc) => nc,
            };
            if !reachable(mv, nc) {
                proof {
                    lemma_ray_end(mv@, src, piece, *d, n, before, out@);
                }
                break ;
            }
            match piece_at_c(mv, nc) {
                Some(p) => {
                    if p.color == piece.color {
                        proof {
                            lemma_ray_block(mv@, src, piece, *d, n, before, out@);
                        }
                        break ;
                    }
                    let m = mk_simple(src, nc, piece, true);
                    let ghost mid = out@;
                    out.push(m);
                    proof {
                        lemma_push_contains(mid, m);
                        assert(ray_move(mv@, src, piece, *d, n + 1, m));
                        lemma_ray_capture(mv@, src, piece, *d, n, before, out@);
                    }
                    break ;
                },
                None => {
                    let m = mk_simple(src, nc, piece, false);
                    let ghost mid = out@;
                    out.push(m);
                    proof {
                        lemma_push_contains(mid, m);
                        assert(ray_move(mv@, src, piece, *d, n + 1, m));
                        assert forall|m2: Move|
                            #[trigger] out@.contains(m2) <==> before.contains(m2) || exists|k: int|
                                1 <= k <= n + 1 && #[trigger] ray_move(mv@, src, piece, *d, k, m2) by {
                            if exists|k: int| 1 <= k <= n + 1 && #[trigger] ray_move(mv@, src, piece, *d, k, m2) {
                                let k = choose|k: int| 1 <= k <= n + 1 && #[trigger] ray_move(mv@, src, piece, *d, k, m2);
                                if k == n + 1 {
                                    assert(m2 == m);
                                }
                            }
                        }
                        assert forall|j: int| 1 <= j < n + 2 implies #[trigger] ray_reach(
                            mv@,
                            src,
                            *d,
                            j,
                        ) && ray_piece(mv@, src, *d, j) is None by {
                            if j < n + 1 {
                                assert(ray_reach(mv@, src, *d, j));
                            }
                        }
                        n = n + 1;
                    }
                    cur = nc;
                },
            }
        }
        proof {
            assert forall|m: Move|
                #[trigger] out@.contains(m) <==> start.contains(m) || exists|j: int, n: int|
                    0 <= j < i + 1 && #[trigger] ray_move(mv@, src, piece, ds@[j], n, m) by {
                if exists|j: int, n: int| 0 <= j < i + 1 && #[trigger] ray_move(mv@, src, piece, ds@[j], n, m) {
                    let (j, k) = choose|j: int, n: int| 0 <= j < i + 1 && #[trigger] ray_move(mv@, src, piece, ds@[j], n, m);
                    if j == i {
                        assert(ray_move(mv@, src, piece, *d, k, m));
                    }
                }
                if out@.contains(m) && !start.contains(m) && !before.contains(m) {
                    let k = choose|k: int| #[trigger] ray_move(mv@, src, piece, *d, k, m);
                    assert(ray_move(mv@, src, piece, ds@[i as int], k, m));
                }
            }
        }
        i = i + 1;
    }
    proof {
        assert forall|m: Move|
            #[trigger] out@.contains(m) <==> old(out)@.contains(m) || slider_move(
                mv@,
                src,
                piece,
                min_axes as int,
                max_axes as int,
                m,
            ) by {
            if slider_move(mv@, src, piece, min_axes as int, max_axes as int, m) {
                let (d, k) = choose|d: [i32; 4], n: int|
                    is_dir(d, min_axes as int, max_axes as int) && #[trigger] ray_move(mv@, src, piece, d, n, m);
                assert(ds@.contains(d));
                let j = choose|j: int| 0 <= j < ds@.len() && ds@[j] == d;
                assert(ray_move(mv@, src, piece, ds@[j], k, m));
            }
            if out@.contains(m) && !start.contains(m) {
                let (j, k) = choose|j: int, n: int| 0 <= j < ds@.len() && #[trigger] ray_move(mv@, src, piece, ds@[j], n, m);
                assert(is_dir(ds@[j], min_axes as int, max_axes as int));
            }
        }
    }
}

/// The ray ended at a missing square after `n` steps.
proof fn lemma_ray_end(
    mv: MultiverseView,
    src: Coord,
    piece: Piece,
    d: [i32; 4],
    n: int,
    before: Seq<Move>,
    out: Seq<Move>,
)
    requires
        n >= 0,
        ray_clear(mv, src, d, n + 1),
        !ray_reach(mv, src, d, n + 1),
        forall|m: Move|
            #[trigger] out.contains(m) <==> before.contains(m) || exists|k: int|
                1 <= k <= n && #[trigger] ray_move(mv, src, piece, d, k, m),
    ensures
        forall|m: Move|
            #[trigger] out.contains(m) <==> before.contains(m) || exists|k: int|
                #[trigger] ray_move(mv, src, piece, d, k, m),
{
    assert forall|m: Move| #[trigger] out.contains(m) <==> before.contains(m) || exists|k: int|
        #[trigger] ray_move(mv, src, piece, d, k, m) by {
        if exists|k: int| #[trigger] ray_move(mv, src, piece, d, k, m) {
            let k = choose|k: int| #[trigger] ray_move(mv, src, piece, d, k, m);
            if k > n + 1 {
                assert(ray_reach(mv, src, d, n + 1));
            }
            assert(1 <= k <= n && ray_move(mv, src, piece, d, k, m));
        }
    }
}

/// The ray ended at a piece of the mover after `n` steps.
proof fn lemma_ray_block(
    mv: MultiverseView,
    src: Coord,
    piece: Piece,
    d: [i32; 4],
    n: int,
    before: Seq<Move>,
    out: Seq<Move>,
)
    requires
        n >= 0,
        ray_clear(mv, src, d, n + 1),
        ray_piece(mv, src, d, n + 1) matches Some(p) && p.color == piece.color,
        forall|m: Move|
            #[trigger] out.contains(m) <==> before.contains(m) || exists|k: int|
                1 <= k <= n && #[trigger] ray_move(mv, src, piece, d, k, m),
    ensures
        forall|m: Move|
            #[trigger] out.contains(m) <==> before.contains(m) || exists|k: int|
                #[trigger] ray_move(mv, src, piece, d, k, m),
{
    assert forall|m: Move| #[trigger] out.contains(m) <==> before.contains(m) || exists|k: int|
        #[trigger] ray_move(mv, src, piece, d, k, m) by {
        if exists|k: int| #[trigger] ray_move(mv, src, piece, d, k, m) {
            let k = choose|k: int| #[trigger] ray_move(mv, src, piece, d, k, m);
            if k > n + 1 {
                assert(ray_clear(mv, src, d, k));
                let j = n + 1;
                assert(1 <= j < k);
                assert(ray_reach(mv, src, d, j));
                assert(ray_piece(mv, src, d, j) is None);
            }
            assert(1 <= k <= n && ray_move(mv, src, piece, d, k, m));
        }
    }
}

/// The ray ended with a capture on square `n + 1`, already recorded.
proof fn lemma_ray_capture(
    mv: MultiverseView,
    src: Coord,
    piece: Piece,
    d: [i32; 4],
    n: int,
    before: Seq<Move>,
    out: Seq<Move>,
)
    requires
        n >= 0,
        ray_clear(mv, src, d, n + 1),
        ray_piece(mv, src, d, n + 1) is Some,
        forall|m: Move|
            #[trigger] out.contains(m) <==> before.contains(m) || exists|k: int|
                1 <= k <= n && #[trigger] ray_move(mv, src, piece, d, k, m) || (ray_move(
                mv,
                src,
                piece,
                d,
                n + 1,
                m,
            )),
    ensures
        forall|m: Move|
            #[trigger] out.contains(m) <==> before.contains(m) || exists|k: int|
                #[trigger] ray_move(mv, src, piece, d, k, m),
{
    assert forall|m: Move| #[trigger] out.contains(m) <==> before.contains(m) || exists|k: int|
        #[trigger] ray_move(mv, src, piece, d, k, m) by {
        if exists|k: int| #[trigger] ray_move(mv, src, piece, d, k, m) {
            let k = choose|k: int| #[trigger] ray_move(mv, src, piece, d, k, m);
            if k > n + 1 {
                assert(ray_clear(mv, src, d, k));
                let j = n + 1;
                assert(1 <= j < k);
                assert(ray_reach(mv, src, d, j));
                assert(ray_piece(mv, src, d, j) is None);
            }
        }
    }
}


/// Tries the jump by every vector of `ds` from `src`.
fn gen_jumps(mv: &Multiverse, ds: &Vec<[i32; 4]>, out: &mut Vec<Move>, src: Coord, piece: Piece)
    requires
        mv_wf(mv@),
        on_board(src.x as int, src.y as int),
        forall|j: int|
            0 <= j < ds@.len() ==> -2 <= #[trigger] ds@[j]@[0] <= 2 && -2 <= ds@[j]@[1] <= 2 && -2
                <= ds@[j]@[2] <= 2 && -2 <= ds@[j]@[3] <= 2,
    ensures
        forall|m: Move|
            #[trigger] final(out)@.contains(m) <==> old(out)@.contains(m) || exists|j: int|
                0 <= j < ds@.len() && #[trigger] jump_move(mv@, src, piece, ds@[j], m),
{
    let ghost start = out@;
    let mut i: usize = 0;
    while i < ds.len()
        invariant
            i <= ds@.len(),
            mv_wf(mv@),
            on_board(src.x as int, src.y as int),
            forall|j: int|
                0 <= j < ds@.len() ==> -2 <= #[trigger] ds@[j]@[0] <= 2 && -2 <= ds@[j]@[1] <= 2
                    && -2 <= ds@[j]@[2] <= 2 && -2 <= ds@[j]@[3] <= 2,
            forall|m: Move|
                #[trigger] out@.contains(m) <==> start.contains(m) || exists|j: int|
                    0 <= j < i && #[trigger] jump_move(mv@, src, piece, ds@[j], m),
        decreases ds@.len() - i,
    {
        let d = &ds[i];
        let ghost before = out@;
        let cur = shift(src, d[0], d[1], d[2], d[3]);
        let mut pushed: Option<Move> = None;
        match cur {
            None => {
                proof {
                    lemma_piece_none(mv@, src.l + d@[3], src.t + d@[2], src.x + d@[0], src.y + d@[1]);
                }
            },
            Some(c) => {
                if reachable(mv, c) {
                    match piece_at_c(mv, c) {
                        Some(p) => {
                            if p.color != piece.color {
                                let m = mk_simple(src, c, piece, true);
                                out.push(m);
                                pushed = Some(m);
                            }
                        },
                        None => {
                            let m = mk_simple(src, c, piece, false);
                            out.push(m);
                            pushed = Some(m);
                        },
                    }
                }
            },
        }
        proof {
            match pushed {
                Some(m) => {
                    lemma_push_contains(before, m);
                    assert(jump_move(mv@, src, piece, *d, m));
                    assert forall|m2: Move| jump_move(mv@, src, piece, *d, m2) implies m2 == m by {}
                },
                None => {
                    assert forall|m2: Move| !jump_move(mv@, src, piece, *d, m2) by {}
                },
            }
            assert forall|m2: Move|
                #[trigger] out@.contains(m2) <==> start.contains(m2) || exists|j: int|
                    0 <= j < i + 1 && #[trigger] jump_move(mv@, src, piece, ds@[j], m2) by {
                if exists|j: int| 0 <= j < i + 1 && #[trigger] jump_move(mv@, src, piece, ds@[j], m2) {
                    let j = choose|j: int| 0 <= j < i + 1 && #[trigger] jump_move(mv@, src, piece, ds@[j], m2);
                    if j < i {
                        assert(before.contains(m2));
                    }
                }
                if out@.contains(m2) && !before.contains(m2) {
                    assert(jump_move(mv@, src, piece, ds@[i as int], m2));
                }
            }
        }
        i = i + 1;
    }
}

/// Knight leaps from `src`.
fn gen_knight(mv: &Multiverse, tb: &Tables, out: &mut Vec<Move>, src: Coord, piece: Piece)
    requires
        mv_wf(mv@),
        tables_ok(tb),
        on_board(src.x as int, src.y as int),
    ensures
        forall|m: Move|
            #[trigger] final(out)@.contains(m) <==> old(out)@.contains(m) || knight_move(
                mv@,
                src,
                piece,
                m,
            ),
{
    let ds = &tb.knight;
    proof {
        assert forall|j: int| 0 <= j < ds@.len() implies -2 <= #[trigger] ds@[j]@[0] <= 2 && -2
            <= ds@[j]@[1] <= 2 && -2 <= ds@[j]@[2] <= 2 && -2 <= ds@[j]@[3] <= 2 by {
            crate::geometry::lemma_knight_axes(ds@[j]);
        }
    }
    gen_jumps(mv, ds, out, src, piece);
    proof {
        assert forall|m: Move| #[trigger] out@.contains(m) <==> old(out)@.contains(m) || knight_move(
            mv@,
            src,
            piece,
            m,
        ) by {
            if knight_move(mv@, src, piece, m) {
                let d = choose|d: [i32; 4]| is_knight_dir(d) && #[trigger] jump_move(mv@, src, piece, d, m);
                assert(ds@.contains(d));
                let j = choose|j: int| 0 <= j < ds@.len() && ds@[j] == d;
                assert(jump_move(mv@, src, piece, ds@[j], m));
            }
            if out@.contains(m) && !old(out)@.contains(m) {
                let j = choose|j: int| 0 <= j < ds@.len() && #[trigger] jump_move(mv@, src, piece, ds@[j], m);
                assert(is_knight_dir(ds@[j]));
            }
        }
    }
}

/// King steps from `src` (one step along any axes).
fn gen_king(mv: &Multiverse, tb: &Tables, out: &mut Vec<Move>, src: Coord, piece: Piece)
    requires
        mv_wf(mv@),
        tables_ok(tb),
        on_board(src.x as int, src.y as int),
    ensures
        forall|m: Move|
            #[trigger] final(out)@.contains(m) <==> old(out)@.contains(m) || king_step(
                mv@,
                src,
                piece,
                m,
            ),
{
    let ds = tb.dirs(1, 4);
    proof {
        assert forall|j: int| 0 <= j < ds@.len() implies -2 <= #[trigger] ds@[j]@[0] <= 2 && -2
            <= ds@[j]@[1] <= 2 && -2 <= ds@[j]@[2] <= 2 && -2 <= ds@[j]@[3] <= 2 by {
            assert(is_dir(ds@[j], 1, 4));
        }
    }
    gen_jumps(mv, ds, out, src, piece);
    proof {
        assert forall|m: Move| #[trigger] out@.contains(m) <==> old(out)@.contains(m) || king_step(
            mv@,
            src,
            piece,
            m,
        ) by {
            if king_step(mv@, src, piece, m) {
                let d = choose|d: [i32; 4]| is_dir(d, 1, 4) && #[trigger] jump_move(mv@, src, piece, d, m);
                assert(ds@.contains(d));
                let j = choose|j: int| 0 <= j < ds@.len() && ds@[j] == d;
                assert(jump_move(mv@, src, piece, ds@[j], m));
            }
            if out@.contains(m) && !old(out)@.contains(m) {
                let j = choose|j: int| 0 <= j < ds@.len() && #[trigger] jump_move(mv@, src, piece, ds@[j], m);
                assert(is_dir(ds@[j], 1, 4));
            }
        }
    }
}


/// The promotion rank of a color.
pub open spec fn last_rank(c: Color) -> int {
    if c == Color::White {
        7
    } else {
        0
    }
}

/// Kinds a pawn may promote to.
pub open spec fn promo_kind(k: PieceKind) -> bool {
    k == PieceKind::Queen || k == PieceKind::Rook || k == PieceKind::Bishop || k == PieceKind::Knight
}

/// `m` goes from `src` to `to`; a pawn-like piece reaching its last rank promotes to a
/// Queen, Rook, Bishop or Knight, any other move carries no promotion.
pub open spec fn promo_move(src: Coord, to: Coord, piece: Piece, cap: bool, kind: MoveKind, m: Move) -> bool {
    &&& m.from == src
    &&& m.to == to
    &&& m.capture == cap
    &&& m.mover == piece.color
    &&& m.kind == kind
    &&& if to.y == last_rank(piece.color) && pawnlike(piece.kind) {
        m.promotion matches Some(pk) && promo_kind(pk)
    } else {
        m.promotion is None
    }
}

/// Square (l, t, x, y) exists and is empty.
pub open spec fn free(mv: MultiverseView, l: int, t: int, x: int, y: int) -> bool {
    reach(mv, l, t, x, y) && piece_at(mv, l, t, x, y) is None
}

/// A forward step of a pawn-like piece on the rank axis (or the time axis when
/// `on_t`) onto an empty square.
pub open spec fn fwd_push(mv: MultiverseView, src: Coord, piece: Piece, on_t: bool, m: Move) -> bool {
    let f = color_sign(piece.color);
    if on_t {
        free(mv, src.l as int, src.t + f, src.x as int, src.y as int) && promo_move(
            src,
            coord(src.l as int, src.t + f, src.x as int, src.y as int),
            piece,
            false,
            MoveKind::Normal,
            m,
        )
    } else {
        free(mv, src.l as int, src.t as int, src.x as int, src.y + f) && promo_move(
            src,
            coord(src.l as int, src.t as int, src.x as int, src.y + f),
            piece,
            false,
            MoveKind::Normal,
            m,
        )
    }
}

/// A double step of an unmoved pawn-like piece over two empty squares.
pub open spec fn fwd_double(mv: MultiverseView, src: Coord, piece: Piece, on_t: bool, m: Move) -> bool {
    let f = color_sign(piece.color);
    &&& !piece.has_moved
    &&& if on_t {
        free(mv, src.l as int, src.t + f, src.x as int, src.y as int) && free(
            mv,
            src.l as int,
            src.t + 2 * f,
            src.x as int,
            src.y as int,
        ) && m == Move {
            from: src,
            to: coord(src.l as int, src.t + 2 * f, src.x as int, src.y as int),
            promotion: None,
            capture: false,
            mover: piece.color,
            kind: MoveKind::DoublePush,
        }
    } else {
        free(mv, src.l as int, src.t as int, src.x as int, src.y + f) && free(
            mv,
            src.l as int,
            src.t as int,
            src.x as int,
            src.y + 2 * f,
        ) && m == Move {
            from: src,
            to: coord(src.l as int, src.t as int, src.x as int, src.y + 2 * f),
            promotion: None,
            capture: false,
            mover: piece.color,
            kind: MoveKind::DoublePush,
        }
    }
}

/// A pawn-like capture by delta `d` onto an enemy piece.
pub open spec fn cap_move(mv: MultiverseView, src: Coord, piece: Piece, d: [i32; 4], m: Move) -> bool {
    &&& reach(mv, src.l + d@[3], src.t + d@[2], src.x + d@[0], src.y + d@[1])
    &&& piece_at(mv, src.l + d@[3], src.t + d@[2], src.x + d@[0], src.y + d@[1]) matches Some(p)
        && p.color != piece.color
    &&& promo_move(
        src,
        coord(src.l + d@[3], src.t + d@[2], src.x + d@[0], src.y + d@[1]),
        piece,
        true,
        MoveKind::Normal,
        m,
    )
}

/// En-passant capture onto the board's en-passant target, diagonally forward on the
/// same board.
pub open spec fn ep_move(b: Board, src: Coord, piece: Piece, m: Move) -> bool {
    b.en_passant matches Some((ex, ey)) && (ex == src.x - 1 || ex == src.x + 1) && ey == src.y
        + color_sign(piece.color) && on_board(ex as int, ey as int) && m == Move {
        from: src,
        to: Coord { l: src.l, t: src.t, x: ex, y: ey },
        promotion: None,
        capture: true,
        mover: piece.color,
        kind: MoveKind::EnPassant,
    }
}

/// The rank pawns of `c` start on: the second rank for White, the seventh for Black.
pub open spec fn pawn_start_rank(c: Color, y: int) -> bool {
    if c == Color::White {
        y == 1
    } else {
        y == 6
    }
}

pub open spec fn pawn_move(mv: MultiverseView, b: Board, src: Coord, piece: Piece, m: Move) -> bool {
    let f = color_sign(piece.color);
    ||| fwd_push(mv, src, piece, false, m)
    ||| fwd_push(mv, src, piece, true, m)
    ||| pawn_start_rank(piece.color, src.y as int) && fwd_double(mv, src, piece, false, m)
    ||| exists|d: [i32; 4]| pawn_delta(d, f) && #[trigger] cap_move(mv, src, piece, d, m)
    ||| ep_move(b, src, piece, m)
}

pub open spec fn brawn_move(mv: MultiverseView, b: Board, src: Coord, piece: Piece, m: Move) -> bool {
    let f = color_sign(piece.color);
    ||| fwd_push(mv, src, piece, false, m)
    ||| fwd_push(mv, src, piece, true, m)
    ||| fwd_double(mv, src, piece, false, m)
    ||| fwd_double(mv, src, piece, true, m)
    ||| exists|d: [i32; 4]|
        (pawn_delta(d, f) || brawn_t_delta(d, f)) && #[trigger] cap_move(mv, src, piece, d, m)
    ||| ep_move(b, src, piece, m)
}

/// The move with the given parts.
fn mk_move(from: Coord, to: Coord, promotion: Option<PieceKind>, capture: bool, mover: Color, kind: MoveKind) -> (m: Move)
    ensures
        m == (Move { from, to, promotion, capture, mover, kind }),
{
    Move { from, to, promotion, capture, mover, kind }
}

/// Pushes the move to `dst`, or its four promotions when a pawn-like piece reaches
/// its last rank.
fn push_with_promo(out: &mut Vec<Move>, src: Coord, dst: Coord, piece: Piece, cap: bool, kind: MoveKind)
    ensures
        forall|m: Move|
            #[trigger] final(out)@.contains(m) <==> old(out)@.contains(m) || promo_move(
                src,
                dst,
                piece,
                cap,
                kind,
                m,
            ),
{
    let last_rank: i8 = if piece.color == Color::White {
        7
    } else {
        0
    };
    if dst.y == last_rank && piece.kind.is_pawnlike() {
        let promos: [PieceKind; 4] = [
            PieceKind::Queen,
            PieceKind::Rook,
            PieceKind::Bishop,
            PieceKind::Knight,
        ];
        let ghost start = out@;
        let mut i: usize = 0;
        while i < 4
            invariant
                i <= 4,
                promos@ == seq![PieceKind::Queen, PieceKind::Rook, PieceKind::Bishop, PieceKind::Knight],
                forall|m: Move|
                    #[trigger] out@.contains(m) <==> start.contains(m) || exists|j: int|
                        0 <= j < i && m == (Move {
                            from: src,
                            to: dst,
                            promotion: Some(#[trigger] promos@[j]),
                            capture: cap,
                            mover: piece.color,
                            kind,
                        }),
            decreases 4 - i,
        {
            let m = mk_move(src, dst, Some(promos[i]), cap, piece.color, kind);
            let ghost before = out@;
            out.push(m);
            proof {
                lemma_push_contains(before, m);
            }
            i = i + 1;
        }
        proof {
            assert forall|m: Move| #[trigger] out@.contains(m) <==> start.contains(m) || promo_move(
                src,
                dst,
                piece,
                cap,
                kind,
                m,
            ) by {
                if promo_move(src, dst, piece, cap, kind, m) {
                    let pk = m.promotion->0;
                    let j = if pk == PieceKind::Queen {
                        0int
                    } else if pk == PieceKind::Rook {
                        1
                    } else if pk == PieceKind::Bishop {
                        2
                    } else {
                        3
                    };
                    assert(promos@[j] == pk);
                }
            }
        }
    } else {
        let m = mk_move(src, dst, None, cap, piece.color, kind);
        let ghost before = out@;
        out.push(m);
        proof {
            lemma_push_contains(before, m);
        }
    }
}

/// Forward step (and double step) on one axis: the rank axis, or the time axis when
/// `on_t`.
fn gen_forward(mv: &Multiverse, out: &mut Vec<Move>, src: Coord, piece: Piece, on_t: bool, allow_double: bool)
    requires
        mv_wf(mv@),
        on_board(src.x as int, src.y as int),
    ensures
        forall|m: Move|
            #[trigger] final(out)@.contains(m) <==> old(out)@.contains(m) || fwd_push(
                mv@,
                src,
                piece,
                on_t,
                m,
            ) || (allow_double && fwd_double(mv@, src, piece, on_t, m)),
{
    let fwd = piece.color.sign();
    let (dy, dt): (i32, i32) = if on_t {
        (0, fwd)
    } else {
        (fwd, 0)
    };
    let ghost f = color_sign(piece.color);
    let ghost start = out@;
    let cur = shift(src, 0, dy, dt, 0);
    let c = match cur {
        None => {
            proof {
                if on_t {
                    lemma_piece_none(mv@, src.l as int, src.t + f, src.x as int, src.y as int);
                } else {
                    lemma_piece_none(mv@, src.l as int, src.t as int, src.x as int, src.y + f);
                }
            }
            return ;
        },
        Some(c) => c,
    };
    if !(reachable(mv, c) && piece_at_c(mv, c).is_none()) {
        return ;
    }
    push_with_promo(out, src, c, piece, false, MoveKind::Normal);
    if allow_double && !piece.has_moved {
        let cur2 = shift(c, 0, dy, dt, 0);
        match cur2 {
            None => {
                proof {
                    if on_t {
                        lemma_piece_none(mv@, src.l as int, src.t + 2 * f, src.x as int, src.y as int);
                    } else {
                        lemma_piece_none(mv@, src.l as int, src.t as int, src.x as int, src.y + 2 * f);
                    }
                }
            },
            Some(c2) => {
                if reachable(mv, c2) && piece_at_c(mv, c2).is_none() {
                    let m = mk_move(src, c2, None, false, piece.color, MoveKind::DoublePush);
                    let ghost before = out@;
                    out.push(m);
                    proof {
                        lemma_push_contains(before, m);
                    }
                }
            },
        }
    }
}

/// Captures along each delta of `ds` onto enemy pieces.
fn gen_captures(mv: &Multiverse, ds: &[[i32; 4]], out: &mut Vec<Move>, src: Coord, piece: Piece)
    requires
        mv_wf(mv@),
        on_board(src.x as int, src.y as int),
        forall|j: int|
            0 <= j < ds@.len() ==> -2 <= #[trigger] ds@[j]@[0] <= 2 && -2 <= ds@[j]@[1] <= 2 && -2
                <= ds@[j]@[2] <= 2 && -2 <= ds@[j]@[3] <= 2,
    ensures
        forall|m: Move|
            #[trigger] final(out)@.contains(m) <==> old(out)@.contains(m) || exists|j: int|
                0 <= j < ds@.len() && #[trigger] cap_move(mv@, src, piece, ds@[j], m),
{
    let ghost start = out@;
    let mut i: usize = 0;
    while i < ds.len()
        invariant
            i <= ds@.len(),
            mv_wf(mv@),
            on_board(src.x as int, src.y as int),
            forall|j: int|
                0 <= j < ds@.len() ==> -2 <= #[trigger] ds@[j]@[0] <= 2 && -2 <= ds@[j]@[1] <= 2
                    && -2 <= ds@[j]@[2] <= 2 && -2 <= ds@[j]@[3] <= 2,
            forall|m: Move|
                #[trigger] out@.contains(m) <==> start.contains(m) || exists|j: int|
                    0 <= j < i && #[trigger] cap_move(mv@, src, piece, ds@[j], m),
        decreases ds@.len() - i,
    {
        let d = &ds[i];
        let ghost before = out@;
        let cur = shift(src, d[0], d[1], d[2], d[3]);
        match cur {
            None => {
                proof {
                    lemma_piece_none(mv@, src.l + d@[3], src.t + d@[2], src.x + d@[0], src.y + d@[1]);
                }
            },
            Some(c) => {
                if reachable(mv, c) {
                    if let Some(p) = piece_at_c(mv, c) {
                        if p.color != piece.color {
                            push_with_promo(out, src, c, piece, true, MoveKind::Normal);
                        }
                    }
                }
            },
        }
        proof {
            assert forall|m2: Move|
                #[trigger] out@.contains(m2) <==> start.contains(m2) || exists|j: int|
                    0 <= j < i + 1 && #[trigger] cap_move(mv@, src, piece, ds@[j], m2) by {
                if exists|j: int| 0 <= j < i + 1 && #[trigger] cap_move(mv@, src, piece, ds@[j], m2) {
                    let j = choose|j: int| 0 <= j < i + 1 && #[trigger] cap_move(mv@, src, piece, ds@[j], m2);
                    if j < i {
                        assert(before.contains(m2));
                    }
                }
                if out@.contains(m2) && !before.contains(m2) {
                    assert(cap_move(mv@, src, piece, ds@[i as int], m2));
                }
            }
        }
        i = i + 1;
    }
}

/// En-passant capture onto the board's target square, if the pawn stands beside it.
fn gen_en_passant(board: &Board, out: &mut Vec<Move>, src: Coord, piece: Piece)
    requires
        on_board(src.x as int, src.y as int),
    ensures
        forall|m: Move|
            #[trigger] final(out)@.contains(m) <==> old(out)@.contains(m) || ep_move(
                *board,
                src,
                piece,
                m,
            ),
{
    let fwd = piece.color.sign();
    if let Some((ex, ey)) = board.en_passant {
        let ahead = src.y + fwd as i8;
        let beside_left = src.x - 1 == ex && ahead == ey;
        let beside_right = src.x + 1 == ex && ahead == ey;
        if (beside_left || beside_right) && in_bounds(ex, ey) {
            let to = Coord::new(src.l, src.t, ex, ey);
            let m = mk_move(src, to, None, true, piece.color, MoveKind::EnPassant);
            let ghost before = out@;
            out.push(m);
            proof {
                lemma_push_contains(before, m);
            }
        }
    }
}

/// Pawn moves: forward on the rank or time axis, a double step on the rank axis
/// from an unmoved pawn on its starting rank, captures on the forward-rank
/// diagonals, en passant.
fn gen_pawn(mv: &Multiverse, board: &Board, out: &mut Vec<Move>, src: Coord, piece: Piece)
    requires
        mv_wf(mv@),
        on_board(src.x as int, src.y as int),
    ensures
        forall|m: Move|
            #[trigger] final(out)@.contains(m) <==> old(out)@.contains(m) || pawn_move(
                mv@,
                *board,
                src,
                piece,
                m,
            ),
{
    let fwd = piece.color.sign();
    let ghost o0 = out@;
    let on_start: bool = match piece.color {
        Color::White => src.y == 1,
        Color::Black => src.y == 6,
    };
    gen_forward(mv, out, src, piece, false, on_start);
    gen_forward(mv, out, src, piece, true, false);
    let capture_deltas: [[i32; 4]; 6] = [
        [1, fwd, 0, 0],
        [-1, fwd, 0, 0],
        [0, fwd, 1, 0],
        [0, fwd, -1, 0],
        [0, fwd, 0, 1],
        [0, fwd, 0, -1],
    ];
    let ghost o1 = out@;
    gen_captures(mv, capture_deltas.as_slice(), out, src, piece);
    let ghost o2 = out@;
    gen_en_passant(board, out, src, piece);
    proof {
        let f = color_sign(piece.color);
        let cd = capture_deltas@;
        assert forall|m: Move| #[trigger] out@.contains(m) <==> o0.contains(m) || pawn_move(
            mv@,
            *board,
            src,
            piece,
            m,
        ) by {
            if exists|d: [i32; 4]| pawn_delta(d, f) && #[trigger] cap_move(mv@, src, piece, d, m) {
                let d = choose|d: [i32; 4]| pawn_delta(d, f) && #[trigger] cap_move(mv@, src, piece, d, m);
                let j = if d@[0] == 1 {
                    0
                } else if d@[0] == -1 {
                    1
                } else if d@[2] == 1 {
                    2
                } else if d@[2] == -1 {
                    3
                } else if d@[3] == 1 {
                    4
                } else {
                    5int
                };
                assert(cd[j]@ =~= d@);
                assert(cd[j] == d);
                assert(cap_move(mv@, src, piece, cd[j], m));
            }
            if exists|j: int| 0 <= j < cd.len() && #[trigger] cap_move(mv@, src, piece, cd[j], m) {
                let j = choose|j: int| 0 <= j < cd.len() && #[trigger] cap_move(mv@, src, piece, cd[j], m);
                assert(pawn_delta(cd[j], f));
            }
        }
    }
}

/// Brawn moves: like a pawn, with double steps on both forward axes and captures on
/// every two-axis diagonal that includes a forward axis (rank or time).
fn gen_brawn(mv: &Multiverse, board: &Board, out: &mut Vec<Move>, src: Coord, piece: Piece)
    requires
        mv_wf(mv@),
        on_board(src.x as int, src.y as int),
    ensures
        forall|m: Move|
            #[trigger] final(out)@.contains(m) <==> old(out)@.contains(m) || brawn_move(
                mv@,
                *board,
                src,
                piece,
                m,
            ),
{
    let fwd = piece.color.sign();
    let ghost o0 = out@;
    gen_forward(mv, out, src, piece, false, true);
    gen_forward(mv, out, src, piece, true, true);
    let capture_deltas: [[i32; 4]; 12] = [
        [-1, fwd, 0, 0],
        [1, fwd, 0, 0],
        [0, fwd, -1, 0],
        [0, fwd, 1, 0],
        [0, fwd, 0, -1],
        [0, fwd, 0, 1],
        [-1, 0, fwd, 0],
        [1, 0, fwd, 0],
        [0, -1, fwd, 0],
        [0, 1, fwd, 0],
        [0, 0, fwd, -1],
        [0, 0, fwd, 1],
    ];
    gen_captures(mv, capture_deltas.as_slice(), out, src, piece);
    gen_en_passant(board, out, src, piece);
    proof {
        let f = color_sign(piece.color);
        let cd = capture_deltas@;
        assert forall|m: Move| #[trigger] out@.contains(m) <==> o0.contains(m) || brawn_move(
            mv@,
            *board,
            src,
            piece,
            m,
        ) by {
            if exists|d: [i32; 4]|
                (pawn_delta(d, f) || brawn_t_delta(d, f)) && #[trigger] cap_move(mv@, src, piece, d, m) {
                let d = choose|d: [i32; 4]|
                    (pawn_delta(d, f) || brawn_t_delta(d, f)) && #[trigger] cap_move(mv@, src, piece, d, m);
                let j = if d@[1] == f {
                    if d@[0] == -1 {
                        0
                    } else if d@[0] == 1 {
                        1
                    } else if d@[2] == -1 {
                        2
                    } else if d@[2] == 1 {
                        3
                    } else if d@[3] == -1 {
                        4
                    } else {
                        5int
                    }
                } else {
                    if d@[0] == -1 {
                        6
                    } else if d@[0] == 1 {
                        7
                    } else if d@[1] == -1 {
                        8
                    } else if d@[1] == 1 {
                        9
                    } else if d@[3] == -1 {
                        10
                    } else {
                        11int
                    }
                };
                assert(cd[j]@ =~= d@);
                assert(cd[j] == d);
                assert(cap_move(mv@, src, piece, cd[j], m));
            }
            if exists|j: int| 0 <= j < cd.len() && #[trigger] cap_move(mv@, src, piece, cd[j], m) {
                let j = choose|j: int| 0 <= j < cd.len() && #[trigger] cap_move(mv@, src, piece, cd[j], m);
                assert(pawn_delta(cd[j], f) || brawn_t_delta(cd[j], f));
            }
        }
    }
}


/// The home rank of a color.
pub open spec fn home_rank(c: Color) -> int {
    if c == Color::White {
        0
    } else {
        7
    }
}

pub open spec fn king_side(c: Color) -> CastleSide {
    if c == Color::White {
        CastleSide::WhiteKing
    } else {
        CastleSide::BlackKing
    }
}

pub open spec fn queen_side(c: Color) -> CastleSide {
    if c == Color::White {
        CastleSide::WhiteQueen
    } else {
        CastleSide::BlackQueen
    }
}

/// Square (x, y) of `b` holds a rook of `c`.
pub open spec fn own_rook_at(b: Board, x: int, y: int, c: Color) -> bool {
    crate::board::board_get(b, x, y) matches Some(p) && p.kind == PieceKind::Rook && p.color == c
}

/// King-side castling is open: right held, f and g empty, own rook on h, and neither
/// f nor g attacked by the opponent.
pub open spec fn castle_king_ok(mv: MultiverseView, b: Board, src: Coord, c: Color) -> bool {
    let hy = home_rank(c);
    &&& right(b.castling, king_side(c))
    &&& crate::board::board_get(b, 5, hy) is None
    &&& crate::board::board_get(b, 6, hy) is None
    &&& own_rook_at(b, 7, hy, c)
    &&& !attacked(mv, coord(src.l as int, src.t as int, 5, hy), opposite(c))
    &&& !attacked(mv, coord(src.l as int, src.t as int, 6, hy), opposite(c))
}

/// Queen-side castling is open: right held, b, c and d empty, own rook on a, and
/// neither c nor d attacked by the opponent.
pub open spec fn castle_queen_ok(mv: MultiverseView, b: Board, src: Coord, c: Color) -> bool {
    let hy = home_rank(c);
    &&& right(b.castling, queen_side(c))
    &&& crate::board::board_get(b, 1, hy) is None
    &&& crate::board::board_get(b, 2, hy) is None
    &&& crate::board::board_get(b, 3, hy) is None
    &&& own_rook_at(b, 0, hy, c)
    &&& !attacked(mv, coord(src.l as int, src.t as int, 2, hy), opposite(c))
    &&& !attacked(mv, coord(src.l as int, src.t as int, 3, hy), opposite(c))
}

/// Castling of the king standing on its home square (e-file, home rank), not in
/// check anywhere in the multiverse.
pub open spec fn castle_move(mv: MultiverseView, b: Board, src: Coord, piece: Piece, m: Move) -> bool {
    let c = piece.color;
    let hy = home_rank(c);
    &&& src.x == 4 && src.y == hy
    &&& !in_check_spec(mv, c)
    &&& {
        ||| castle_king_ok(mv, b, src, c) && m == Move {
            from: src,
            to: coord(src.l as int, src.t as int, 6, hy),
            promotion: None,
            capture: false,
            mover: c,
            kind: MoveKind::CastleKing,
        }
        ||| castle_queen_ok(mv, b, src, c) && m == Move {
            from: src,
            to: coord(src.l as int, src.t as int, 2, hy),
            promotion: None,
            capture: false,
            mover: c,
            kind: MoveKind::CastleQueen,
        }
    }
}

/// The moves of `piece` standing on `src` of board `b` (castling only when `castle`).
pub open spec fn piece_moves(mv: MultiverseView, b: Board, src: Coord, piece: Piece, castle: bool, m: Move) -> bool {
    match piece.kind {
        PieceKind::Pawn => pawn_move(mv, b, src, piece, m),
        PieceKind::Brawn => brawn_move(mv, b, src, piece, m),
        PieceKind::Knight => knight_move(mv, src, piece, m),
        PieceKind::Bishop => slider_move(mv, src, piece, 2, 2, m),
        PieceKind::Rook => slider_move(mv, src, piece, 1, 1, m),
        PieceKind::Queen => slider_move(mv, src, piece, 1, 4, m),
        PieceKind::Unicorn => slider_move(mv, src, piece, 3, 3, m),
        PieceKind::Dragon => slider_move(mv, src, piece, 4, 4, m),
        PieceKind::Princess => slider_move(mv, src, piece, 2, 2, m) || knight_move(mv, src, piece, m),
        PieceKind::King => king_step(mv, src, piece, m) || (castle && castle_move(mv, b, src, piece, m)),
    }
}

/// Castling moves of the king on `src`.
fn gen_castling(
    mv: &Multiverse,
    tb: &Tables,
    lim: i32,
    board: &Board,
    out: &mut Vec<Move>,
    src: Coord,
    piece: Piece,
)
    requires
        mv_wf(mv@),
        tables_ok(tb),
        lim_ok(mv@, lim),
        on_board(src.x as int, src.y as int),
    ensures
        forall|m: Move|
            #[trigger] final(out)@.contains(m) <==> old(out)@.contains(m) || castle_move(
                mv@,
                *board,
                src,
                piece,
                m,
            ),
{
    let (home_y, king_side, queen_side) = match piece.color {
        Color::White => (0i8, CastleSide::WhiteKing, CastleSide::WhiteQueen),
        Color::Black => (7i8, CastleSide::BlackKing, CastleSide::BlackQueen),
    };
    if src.x != 4 || src.y != home_y {
        return ;
    }
    if crate::attack::in_check_with(mv, tb, piece.color) {
        return ;
    }
    let opp = piece.color.flip();
    let all = crate::attack::Present::all();
    let near = crate::attack::near_of(mv, src.l, src.l);
    let ghost start = out@;
    let ks_ok = board.castling.get(king_side) && board.get(5, home_y).is_none() && board.get(
        6,
        home_y,
    ).is_none() && match board.get(7, home_y) {
        Some(p) => p.kind == PieceKind::Rook && p.color == piece.color,
        None => false,
    } && !is_attacked(mv, tb, &near, lim, Coord::new(src.l, src.t, 5, home_y), opp, all) && !is_attacked(
        mv,
        tb,
        &near,
        lim,
        Coord::new(src.l, src.t, 6, home_y),
        opp,
        all,
    );
    let mk = mk_move(src, Coord::new(src.l, src.t, 6, home_y), None, false, piece.color, MoveKind::CastleKing);
    if ks_ok {
        out.push(mk);
        proof {
            lemma_push_contains(start, mk);
        }
    }
    let ghost mid = out@;
    let qs_ok = board.castling.get(queen_side) && board.get(1, home_y).is_none() && board.get(
        2,
        home_y,
    ).is_none() && board.get(3, home_y).is_none() && match board.get(0, home_y) {
        Some(p) => p.kind == PieceKind::Rook && p.color == piece.color,
        None => false,
    } && !is_attacked(mv, tb, &near, lim, Coord::new(src.l, src.t, 2, home_y), opp, all) && !is_attacked(
        mv,
        tb,
        &near,
        lim,
        Coord::new(src.l, src.t, 3, home_y),
        opp,
        all,
    );
    let mq = mk_move(src, Coord::new(src.l, src.t, 2, home_y), None, false, piece.color, MoveKind::CastleQueen);
    if qs_ok {
        out.push(mq);
        proof {
            lemma_push_contains(mid, mq);
        }
    }
    proof {
        assert(ks_ok == castle_king_ok(mv@, *board, src, piece.color));
        assert(qs_ok == castle_queen_ok(mv@, *board, src, piece.color));
        assert(mk.to == coord(src.l as int, src.t as int, 6, home_rank(piece.color)));
        assert(mq.to == coord(src.l as int, src.t as int, 2, home_rank(piece.color)));
    }
}

/// The moves of the piece on `src`, dispatched on its kind.
fn gen_piece(
    mv: &Multiverse,
    tb: &Tables,
    lim: i32,
    board: &Board,
    out: &mut Vec<Move>,
    src: Coord,
    piece: Piece,
    castle: bool,
)
    requires
        mv_wf(mv@),
        tables_ok(tb),
        lim_ok(mv@, lim),
        on_board(src.x as int, src.y as int),
    ensures
        forall|m: Move|
            #[trigger] final(out)@.contains(m) <==> old(out)@.contains(m) || piece_moves(
                mv@,
                *board,
                src,
                piece,
                castle,
                m,
            ),
{
    match piece.kind {
        PieceKind::Pawn => gen_pawn(mv, board, out, src, piece),
        PieceKind::Brawn => gen_brawn(mv, board, out, src, piece),
        PieceKind::Knight => gen_knight(mv, tb, out, src, piece),
        PieceKind::Bishop => gen_slider(mv, tb, out, src, piece, 2, 2),
        PieceKind::Rook => gen_slider(mv, tb, out, src, piece, 1, 1),
        PieceKind::Queen => gen_slider(mv, tb, out, src, piece, 1, 4),
        PieceKind::Unicorn => gen_slider(mv, tb, out, src, piece, 3, 3),
        PieceKind::Dragon => gen_slider(mv, tb, out, src, piece, 4, 4),
        PieceKind::Princess => {
            gen_slider(mv, tb, out, src, piece, 2, 2);
            gen_knight(mv, tb, out, src, piece);
        },
        PieceKind::King => {
            gen_king(mv, tb, out, src, piece);
            if castle {
                gen_castling(mv, tb, lim, board, out, src, piece);
            }
        },
    }
}

/// Every move of a piece starts on its square.
proof fn lemma_moves_from(mv: MultiverseView, b: Board, src: Coord, piece: Piece, castle: bool, m: Move)
    requires
        piece_moves(mv, b, src, piece, castle, m),
    ensures
        m.from == src,
{
    if slider_move(mv, src, piece, 1, 4, m) || slider_move(mv, src, piece, 1, 1, m) || slider_move(
        mv,
        src,
        piece,
        2,
        2,
        m,
    ) || slider_move(mv, src, piece, 3, 3, m) || slider_move(mv, src, piece, 4, 4, m) {
        let kk = if slider_move(mv, src, piece, 1, 4, m) {
            (1int, 4int)
        } else if slider_move(mv, src, piece, 1, 1, m) {
            (1, 1)
        } else if slider_move(mv, src, piece, 2, 2, m) {
            (2, 2)
        } else if slider_move(mv, src, piece, 3, 3, m) {
            (3, 3)
        } else {
            (4, 4)
        };
        let (d, n) = choose|d: [i32; 4], n: int| is_dir(d, kk.0, kk.1) && #[trigger] ray_move(mv, src, piece, d, n, m);
    }
    if knight_move(mv, src, piece, m) {
        let d = choose|d: [i32; 4]| is_knight_dir(d) && #[trigger] jump_move(mv, src, piece, d, m);
    }
    if king_step(mv, src, piece, m) {
        let d = choose|d: [i32; 4]| is_dir(d, 1, 4) && #[trigger] jump_move(mv, src, piece, d, m);
    }
    let f = color_sign(piece.color);
    if exists|d: [i32; 4]| (pawn_delta(d, f) || brawn_t_delta(d, f)) && #[trigger] cap_move(mv, src, piece, d, m) {
        let d = choose|d: [i32; 4]| (pawn_delta(d, f) || brawn_t_delta(d, f)) && #[trigger] cap_move(mv, src, piece, d, m);
    }
}


/// `m` moves a piece of `color` standing on board `b` = (l, t).
pub open spec fn board_move(mv: MultiverseView, b: Board, l: int, t: int, color: Color, castle: bool, m: Move) -> bool {
    &&& m.from.l == l
    &&& m.from.t == t
    &&& on_board(m.from.x as int, m.from.y as int)
    &&& sq(b, m.from.x as int, m.from.y as int) matches Some(p) && p.color == color && piece_moves(
        mv,
        b,
        m.from,
        p,
        castle,
        m,
    )
}

/// Only castling moves a king two files along its rank: any move of a piece whose kind
/// is a castling kind is a castling move of a king.
proof fn lemma_castle_kind_is_castling(mv: MultiverseView, b: Board, src: Coord, piece: Piece, castle: bool, m: Move)
    requires
        piece_moves(mv, b, src, piece, castle, m),
        m.kind == MoveKind::CastleKing || m.kind == MoveKind::CastleQueen,
    ensures
        piece.kind == PieceKind::King,
        castle,
        castle_move(mv, b, src, piece, m),
{
    if slider_move(mv, src, piece, 1, 4, m) {
        let (d, n) = choose|d: [i32; 4], n: int| is_dir(d, 1, 4) && #[trigger] ray_move(mv, src, piece, d, n, m);
    }
    if slider_move(mv, src, piece, 2, 2, m) {
        let (d, n) = choose|d: [i32; 4], n: int| is_dir(d, 2, 2) && #[trigger] ray_move(mv, src, piece, d, n, m);
    }
    if slider_move(mv, src, piece, 1, 1, m) {
        let (d, n) = choose|d: [i32; 4], n: int| is_dir(d, 1, 1) && #[trigger] ray_move(mv, src, piece, d, n, m);
    }
    if slider_move(mv, src, piece, 3, 3, m) {
        let (d, n) = choose|d: [i32; 4], n: int| is_dir(d, 3, 3) && #[trigger] ray_move(mv, src, piece, d, n, m);
    }
    if slider_move(mv, src, piece, 4, 4, m) {
        let (d, n) = choose|d: [i32; 4], n: int| is_dir(d, 4, 4) && #[trigger] ray_move(mv, src, piece, d, n, m);
    }
    if knight_move(mv, src, piece, m) {
        let d = choose|d: [i32; 4]| is_knight_dir(d) && #[trigger] jump_move(mv, src, piece, d, m);
    }
    if king_step(mv, src, piece, m) {
        let d = choose|d: [i32; 4]| is_dir(d, 1, 4) && #[trigger] jump_move(mv, src, piece, d, m);
    }
    let f = color_sign(piece.color);
    if exists|d: [i32; 4]| pawn_delta(d, f) && #[trigger] cap_move(mv, src, piece, d, m) {
        let d = choose|d: [i32; 4]| pawn_delta(d, f) && #[trigger] cap_move(mv, src, piece, d, m);
    }
    if exists|d: [i32; 4]| (pawn_delta(d, f) || brawn_t_delta(d, f)) && #[trigger] cap_move(mv, src, piece, d, m) {
        let d = choose|d: [i32; 4]| (pawn_delta(d, f) || brawn_t_delta(d, f)) && #[trigger] cap_move(mv, src, piece, d, m);
    }
}

/// A king in check does not castle: every castling move that a board offers `color`
/// is made from a position in which `color` is not in check.
pub proof fn lemma_no_castling_out_of_check(mv: MultiverseView, b: Board, l: int, t: int, color: Color, castle: bool, m: Move)
    requires
        board_move(mv, b, l, t, color, castle, m),
        m.kind == MoveKind::CastleKing || m.kind == MoveKind::CastleQueen,
    ensures
        !in_check_spec(mv, color),
{
    let p = sq(b, m.from.x as int, m.from.y as int)->0;
    lemma_castle_kind_is_castling(mv, b, m.from, p, castle, m);
}

/// Moves of every piece of `color` on board `b` = (l, t), square by square in scan order.
fn gen_board(
    mv: &Multiverse,
    tb: &Tables,
    lim: i32,
    board: &Board,
    l: i32,
    t: i32,
    color: Color,
    castle: bool,
    out: &mut Vec<Move>,
)
    requires
        mv_wf(mv@),
        tables_ok(tb),
        lim_ok(mv@, lim),
    ensures
        forall|m: Move|
            #[trigger] final(out)@.contains(m) <==> old(out)@.contains(m) || board_move(
                mv@,
                *board,
                l as int,
                t as int,
                color,
                castle,
                m,
            ),
{
    let ghost start = out@;
    let mut y: i8 = 0;
    while y < 8
        invariant
            0 <= y <= 8,
            mv_wf(mv@),
            tables_ok(tb),
            lim_ok(mv@, lim),
            forall|m: Move|
                #[trigger] out@.contains(m) <==> start.contains(m) || (board_move(
                    mv@,
                    *board,
                    l as int,
                    t as int,
                    color,
                    castle,
                    m,
                ) && m.from.y < y),
        decreases 8 - y,
    {
        let mut x: i8 = 0;
        while x < 8
            invariant
                0 <= x <= 8,
                0 <= y < 8,
                mv_wf(mv@),
                tables_ok(tb),
                lim_ok(mv@, lim),
                forall|m: Move|
                    #[trigger] out@.contains(m) <==> start.contains(m) || (board_move(
                        mv@,
                        *board,
                        l as int,
                        t as int,
                        color,
                        castle,
                        m,
                    ) && (m.from.y < y || (m.from.y == y && m.from.x < x))),
            decreases 8 - x,
        {
            let ghost before = out@;
            match board.get(x, y) {
                Some(piece) => {
                    if piece.color == color {
                        let src = Coord::new(l, t, x, y);
                        gen_piece(mv, tb, lim, board, out, src, piece, castle);
                        proof {
                            assert forall|m: Move| #[trigger] out@.contains(m) <==> start.contains(m) || (
                            board_move(mv@, *board, l as int, t as int, color, castle, m) && (m.from.y < y
                                || (m.from.y == y && m.from.x < x + 1))) by {
                                if piece_moves(mv@, *board, src, piece, castle, m) {
                                    lemma_moves_from(mv@, *board, src, piece, castle, m);
                                }
                                if board_move(mv@, *board, l as int, t as int, color, castle, m)
                                    && m.from.y == y && m.from.x == x {
                                    assert(m.from == src);
                                }
                            }
                        }
                    }
                },
                None => {},
            }
            x = x + 1;
        }
        y = y + 1;
    }
}

/// Whether `m` occurs in `v`.
pub(crate) fn contains_move(v: &Vec<Move>, m: Move) -> (r: bool)
    ensures
        r == v@.contains(m),
{
    let mut i: usize = 0;
    while i < v.len()
        invariant
            i <= v@.len(),
            forall|k: int| 0 <= k < i ==> v@[k] != m,
        decreases v@.len() - i,
    {
        if v[i] == m {
            proof {
                assert(v@[i as int] == m);
            }
            return true;
        }
        i = i + 1;
    }
    false
}

/// The moves of `v` in order, each listed once (at its first place).
fn distinct_moves(v: Vec<Move>) -> (r: Vec<Move>)
    ensures
        r@.no_duplicates(),
        forall|m: Move| #[trigger] r@.contains(m) <==> v@.contains(m),
{
    let mut out: Vec<Move> = Vec::new();
    let mut i: usize = 0;
    while i < v.len()
        invariant
            i <= v@.len(),
            out@.no_duplicates(),
            forall|m: Move| #[trigger] out@.contains(m) <==> exists|j: int| 0 <= j < i && v@[j] == m,
        decreases v@.len() - i,
    {
        let m = v[i];
        let ghost before = out@;
        if !contains_move(&out, m) {
            out.push(m);
            proof {
                lemma_push_contains(before, m);
                assert forall|a: int, b: int| 0 <= a < b < out@.len() implies out@[a] != out@[b] by {
                    if b == before.len() {
                        assert(before.contains(out@[a]));
                    } else {
                        assert(before[a] != before[b]);
                    }
                }
            }
        }
        proof {
            assert forall|x: Move| #[trigger] out@.contains(x) <==> exists|j: int| 0 <= j < i + 1 && v@[j] == x by {
                if exists|j: int| 0 <= j < i + 1 && v@[j] == x {
                    let j = choose|j: int| 0 <= j < i + 1 && v@[j] == x;
                    if j < i {
                        assert(before.contains(x));
                    }
                }
                if out@.contains(x) && !before.contains(x) {
                    assert(x == m);
                }
            }
        }
        i = i + 1;
    }
    proof {
        assert forall|x: Move| #[trigger] out@.contains(x) <==> v@.contains(x) by {
            if v@.contains(x) {
                let j = choose|j: int| 0 <= j < v@.len() && v@[j] == x;
            }
        }
    }
    out
}

/// Pseudo-legal moves (piece rules and source boards, not king safety) of `color`
/// from the latest board of every active timeline; with `enforce_to_move` only boards
/// with `color` to move, and castling included.
pub open spec fn pseudo_move(mv: MultiverseView, color: Color, enforce_to_move: bool, m: Move) -> bool {
    let l = m.from.l;
    let tl = mv.timelines[l];
    &&& mv.timelines.contains_key(l)
    &&& active(mv, l as int)
    &&& m.from.t == last_t(tl)
    &&& enforce_to_move ==> latest_board(tl).to_move == color
    &&& board_move(mv, latest_board(tl), l as int, last_t(tl), color, enforce_to_move, m)
}

fn generate_pseudo_moves_filtered(mv: &Multiverse, tb: &Tables, color: Color, enforce_to_move: bool) -> (moves: Vec<Move>)
    requires
        mv_wf(mv@),
        tables_ok(tb),
    ensures
        moves@.no_duplicates(),
        forall|m: Move| #[trigger] moves@.contains(m) <==> pseudo_move(mv@, color, enforce_to_move, m),
{
    let mut moves: Vec<Move> = Vec::new();
    let ks = mv.timeline_keys();
    let lim = mv.active_limit();
    proof {
        crate::multiverse::lemma_keys_seq_props(mv@);
        crate::multiverse::lemma_view_timelines(*mv);
    }
    let mut i: usize = 0;
    while i < ks.len()
        invariant
            i <= ks@.len(),
            ks@ == keys_seq(mv@),
            ks@.to_set() == mv@.timelines.dom(),
            mv@.timelines.dom() == mv.timelines@.dom(),
            forall|l: i32| #[trigger] mv.timelines@.contains_key(l) ==> mv@.timelines[l] == mv.timelines@[l]@,
            crate::multiverse::increasing(ks@),
            mv_wf(mv@),
            tables_ok(tb),
            lim_ok(mv@, lim),
            forall|m: Move|
                #[trigger] moves@.contains(m) <==> pseudo_move(mv@, color, enforce_to_move, m)
                    && exists|j: int| 0 <= j < i && ks@[j] == m.from.l,
        decreases ks@.len() - i,
    {
        let l = ks[i];
        proof {
            assert(ks@.to_set().contains(l));
        }
        let tl = mv.timelines.get(&l).unwrap();
        let t = tl.latest_t();
        let b = &tl.boards[tl.boards.len() - 1];
        let ghost before = moves@;
        if crate::attack::within(l, lim) && (!enforce_to_move || b.to_move == color) {
            gen_board(mv, tb, lim, b, l, t, color, enforce_to_move, &mut moves);
        }
        proof {
            assert forall|m: Move| #[trigger] moves@.contains(m) <==> pseudo_move(
                mv@,
                color,
                enforce_to_move,
                m,
            ) && exists|j: int| 0 <= j < i + 1 && ks@[j] == m.from.l by {
                if pseudo_move(mv@, color, enforce_to_move, m) && exists|j: int|
                    0 <= j < i + 1 && ks@[j] == m.from.l {
                    let j = choose|j: int| 0 <= j < i + 1 && ks@[j] == m.from.l;
                    if j < i {
                        assert(before.contains(m));
                    } else {
                        assert(m.from.l == l);
                    }
                }
                if moves@.contains(m) && !before.contains(m) {
                    assert(m.from.l == l);
                    assert(ks@[i as int] == m.from.l);
                }
                if before.contains(m) {
                    let j = choose|j: int| 0 <= j < i && ks@[j] == m.from.l;
                    assert(ks@[j] == m.from.l);
                }
            }
        }
        i = i + 1;
    }
    proof {
        assert forall|m: Move| #[trigger] moves@.contains(m) <==> pseudo_move(mv@, color, enforce_to_move, m) by {
            if pseudo_move(mv@, color, enforce_to_move, m) {
                assert(ks@.to_set().contains(m.from.l));
                let j = choose|j: int| 0 <= j < ks@.len() && ks@[j] == m.from.l;
            }
        }
    }
    distinct_moves(moves)
}

/// Pseudo-legal moves for `color`, each once: piece-movement rules and source-board
/// constraints (latest boards of active timelines with `color` to move), not king
/// safety.
pub fn generate_pseudo_moves(mv: &Multiverse, color: Color) -> (moves: Vec<Move>)
    requires
        mv_wf(mv@),
    ensures
        moves@.no_duplicates(),
        forall|m: Move| #[trigger] moves@.contains(m) <==> pseudo_move(mv@, color, true, m),
{
    let tb = Tables::new();
    generate_pseudo_moves_filtered(mv, &tb, color, true)
}

/// As `generate_pseudo_moves`, but from every active latest board whichever side is to
/// move there, and without castling (the opponent's threats).
pub fn generate_pseudo_moves_any_turn(mv: &Multiverse, color: Color) -> (moves: Vec<Move>)
    requires
        mv_wf(mv@),
    ensures
        moves@.no_duplicates(),
        forall|m: Move| #[trigger] moves@.contains(m) <==> pseudo_move(mv@, color, false, m),
{
    let tb = Tables::new();
    generate_pseudo_moves_filtered(mv, &tb, color, false)
}

/// Pseudo-legal moves of `color` from board `bid`, which must exist and have `color`
/// to move.
pub open spec fn from_board_move(mv: MultiverseView, l: int, t: int, color: Color, m: Move) -> bool {
    board_at(mv, l, t) matches Some(b) && b.to_move == color && board_move(mv, b, l, t, color, true, m)
}

pub(crate) fn generate_pseudo_moves_from_board(mv: &Multiverse, tb: &Tables, lim: i32, bid: BoardId, color: Color) -> (moves: Vec<Move>)
    requires
        mv_wf(mv@),
        tables_ok(tb),
        lim_ok(mv@, lim),
    ensures
        moves@.no_duplicates(),
        forall|m: Move| #[trigger] moves@.contains(m) <==> from_board_move(mv@, bid.l as int, bid.t as int, color, m),
{
    let mut moves: Vec<Move> = Vec::new();
    let board = match mv.board(bid) {
        Some(b) => b,
        None => {
            return moves;
        },
    };
    if board.to_move != color {
        return moves;
    }
    gen_board(mv, tb, lim, board, bid.l, bid.t, color, true, &mut moves);
    distinct_moves(moves)
}

/// Pseudo-legal captures and promotions from one board, each once (for quiescence
/// search).
pub fn generate_capture_moves_from_board(mv: &Multiverse, bid: BoardId, color: Color) -> (moves: Vec<Move>)
    requires
        mv_wf(mv@),
    ensures
        moves@.no_duplicates(),
        forall|m: Move| #[trigger] moves@.contains(m) <==> from_board_move(mv@, bid.l as int, bid.t as int, color, m)
            && (m.capture || m.promotion is Some),
{
    let tb = Tables::new();
    let lim = mv.active_limit();
    capture_moves_with(mv, &tb, lim, bid, color)
}

pub(crate) fn capture_moves_with(mv: &Multiverse, tb: &Tables, lim: i32, bid: BoardId, color: Color) -> (moves: Vec<Move>)
    requires
        mv_wf(mv@),
        tables_ok(tb),
        lim_ok(mv@, lim),
    ensures
        moves@.no_duplicates(),
        forall|m: Move| #[trigger] moves@.contains(m) <==> from_board_move(mv@, bid.l as int, bid.t as int, color, m)
            && (m.capture || m.promotion is Some),
        forall|i: int| 0 <= i < moves@.len() ==> from_board_move(mv@, bid.l as int, bid.t as int, color, #[trigger] moves@[i]),
{
    let all = generate_pseudo_moves_from_board(mv, tb, lim, bid, color);
    let mut moves: Vec<Move> = Vec::new();
    let mut i: usize = 0;
    while i < all.len()
        invariant
            i <= all@.len(),
            forall|m: Move| #[trigger] all@.contains(m) <==> from_board_move(mv@, bid.l as int, bid.t as int, color, m),
            forall|m: Move| #[trigger] moves@.contains(m) <==> (exists|j: int| 0 <= j < i && all@[j] == m)
                && (m.capture || m.promotion is Some),
            forall|k: int| 0 <= k < moves@.len() ==> all@.contains(#[trigger] moves@[k]),
            all@.no_duplicates(),
            moves@.no_duplicates(),
        decreases all@.len() - i,
    {
        let m = all[i];
        let ghost before = moves@;
        if m.capture || m.promotion.is_some() {
            moves.push(m);
            proof {
                lemma_push_contains(before, m);
                assert forall|a: int, b: int| 0 <= a < b < moves@.len() implies moves@[a] != moves@[b] by {
                    if b == before.len() {
                        if before[a] == m {
                            assert(before.contains(m));
                            let j = choose|j: int| 0 <= j < i && all@[j] == m;
                            assert(all@[j] == all@[i as int]);
                        }
                    } else {
                        assert(before[a] != before[b]);
                    }
                }
            }
        }
        proof {
            assert forall|m2: Move| #[trigger] moves@.contains(m2) <==> (exists|j: int| 0 <= j < i + 1 && all@[j] == m2)
                && (m2.capture || m2.promotion is Some) by {
                if exists|j: int| 0 <= j < i + 1 && all@[j] == m2 {
                    let j = choose|j: int| 0 <= j < i + 1 && all@[j] == m2;
                    if j < i {
                        assert(exists|j2: int| 0 <= j2 < i && all@[j2] == m2);
                    }
                }
            }
            assert forall|k: int| 0 <= k < moves@.len() implies all@.contains(#[trigger] moves@[k]) by {
                if k < before.len() {
                    assert(moves@[k] == before[k]);
                } else {
                    assert(all@[i as int] == m);
                }
            }
        }
        i = i + 1;
    }
    proof {
        assert forall|m: Move| #[trigger] moves@.contains(m) <==> from_board_move(mv@, bid.l as int, bid.t as int, color, m)
            && (m.capture || m.promotion is Some) by {
            if all@.contains(m) {
                let j = choose|j: int| 0 <= j < all@.len() && all@[j] == m;
            }
        }
        assert forall|k: int| 0 <= k < moves@.len() implies from_board_move(mv@, bid.l as int, bid.t as int, color, #[trigger] moves@[k]) by {
            assert(all@.contains(moves@[k]));
        }
    }
    moves
}

} // verus!
