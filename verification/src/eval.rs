//! Position evaluation in centipawns, from White's point of view.
//!
//! Material and piece-square values on every latest board (active timelines in
//! full, inactive ones at 30%), bishop pair, rook on the seventh, doubled, isolated
//! and passed pawns, king shelter on active boards, a frontier term for boards at
//! the present, timeline-count and active-timeline-count terms, and a tempo bonus.

use vstd::prelude::*;

use crate::attack::{first_king, is_first_king, lim_ok, within};
use crate::board::{board_get, king_on, on_board, scan_before, sq, Board};
use crate::multiverse::{
    active, active_min, black_tls, keys_seq, last_t, latest_board, lemma_keys_seq_props, mv_wf, present, side_min,
    white_tls, Multiverse, MultiverseView, TimelineView,
};
use crate::types::{opposite, pawnlike, Color, Piece, PieceKind};

verus! {

/// Material value of a piece kind.
pub open spec fn piece_worth(k: PieceKind) -> int {
    match k {
        PieceKind::Pawn => 100,
        PieceKind::Brawn => 150,
        PieceKind::Knight => 320,
        PieceKind::Bishop => 330,
        PieceKind::Rook => 500,
        PieceKind::Unicorn => 500,
        PieceKind::Dragon => 550,
        PieceKind::Princess => 650,
        PieceKind::Queen => 900,
        PieceKind::King => 20_000,
    }
}

/// Material value of a piece kind in centipawns.
pub fn piece_value(kind: PieceKind) -> (r: i32)
    ensures
        r == piece_worth(kind),
{
    match kind {
        PieceKind::Pawn => 100,
        PieceKind::Brawn => 150,
        PieceKind::Knight => 320,
        PieceKind::Bishop => 330,
        PieceKind::Rook => 500,
        PieceKind::Unicorn => 500,
        PieceKind::Dragon => 550,
        PieceKind::Princess => 650,
        PieceKind::Queen => 900,
        PieceKind::King => 20_000,
    }
}

// Piece-square tables from White's side: row `y` is rank y + 1.
pub const PST_PAWN: [[i32; 8]; 8] = [
    [0, 0, 0, 0, 0, 0, 0, 0],
    [5, 10, 10, -20, -20, 10, 10, 5],
    [5, -5, -10, 0, 0, -10, -5, 5],
    [0, 0, 0, 20, 20, 0, 0, 0],
    [5, 5, 10, 25, 25, 10, 5, 5],
    [10, 10, 20, 30, 30, 20, 10, 10],
    [50, 50, 50, 50, 50, 50, 50, 50],
    [0, 0, 0, 0, 0, 0, 0, 0],
];

pub const PST_KNIGHT: [[i32; 8]; 8] = [
    [-50, -40, -30, -30, -30, -30, -40, -50],
    [-40, -20, 0, 5, 5, 0, -20, -40],
    [-30, 5, 10, 15, 15, 10, 5, -30],
    [-30, 0, 15, 20, 20, 15, 0, -30],
    [-30, 5, 15, 20, 20, 15, 5, -30],
    [-30, 0, 10, 15, 15, 10, 0, -30],
    [-40, -20, 0, 0, 0, 0, -20, -40],
    [-50, -40, -30, -30, -30, -30, -40, -50],
];

pub const PST_BISHOP: [[i32; 8]; 8] = [
    [-20, -10, -10, -10, -10, -10, -10, -20],
    [-10, 5, 0, 0, 0, 0, 5, -10],
    [-10, 10, 10, 10, 10, 10, 10, -10],
    [-10, 0, 10, 10, 10, 10, 0, -10],
    [-10, 5, 5, 10, 10, 5, 5, -10],
    [-10, 0, 5, 10, 10, 5, 0, -10],
    [-10, 0, 0, 0, 0, 0, 0, -10],
    [-20, -10, -10, -10, -10, -10, -10, -20],
];

pub const PST_ROOK: [[i32; 8]; 8] = [
    [0, 0, 5, 10, 10, 5, 0, 0],
    [-5, 0, 0, 0, 0, 0, 0, -5],
    [-5, 0, 0, 0, 0, 0, 0, -5],
    [-5, 0, 0, 0, 0, 0, 0, -5],
    [-5, 0, 0, 0, 0, 0, 0, -5],
    [-5, 0, 0, 0, 0, 0, 0, -5],
    [5, 10, 10, 10, 10, 10, 10, 5],
    [0, 0, 0, 0, 0, 0, 0, 0],
];

pub const PST_QUEEN: [[i32; 8]; 8] = [
    [-20, -10, -10, -5, -5, -10, -10, -20],
    [-10, 0, 5, 0, 0, 0, 0, -10],
    [-10, 5, 5, 5, 5, 5, 0, -10],
    [0, 0, 5, 5, 5, 5, 0, -5],
    [-5, 0, 5, 5, 5, 5, 0, -5],
    [-10, 0, 5, 5, 5, 5, 0, -10],
    [-10, 0, 0, 0, 0, 0, 0, -10],
    [-20, -10, -10, -5, -5, -10, -10, -20],
];

pub const PST_KING_MID: [[i32; 8]; 8] = [
    [20, 30, 10, 0, 0, 10, 30, 20],
    [20, 20, 0, 0, 0, 0, 20, 20],
    [-10, -20, -20, -20, -20, -20, -20, -10],
    [-20, -30, -30, -40, -40, -30, -30, -20],
    [-30, -40, -40, -50, -50, -40, -40, -30],
    [-30, -40, -40, -50, -50, -40, -40, -30],
    [-30, -40, -40, -50, -50, -40, -40, -30],
    [-30, -40, -40, -50, -50, -40, -40, -30],
];

/// Integer halving that rounds toward zero.
pub open spec fn half_toward_zero(v: int) -> int {
    if v >= 0 {
        v / 2
    } else {
        -((-v) / 2)
    }
}

/// The table entry of a kind, `yt` counted from the mover's own side.
pub open spec fn pst_entry(kind: PieceKind, yt: int, x: int) -> int {
    match kind {
        PieceKind::Pawn => PST_PAWN@[yt]@[x] as int,
        PieceKind::Brawn => PST_PAWN@[yt]@[x] + 10,
        PieceKind::Knight => PST_KNIGHT@[yt]@[x] as int,
        PieceKind::Bishop => PST_BISHOP@[yt]@[x] as int,
        PieceKind::Rook => PST_ROOK@[yt]@[x] as int,
        PieceKind::Queen => PST_QUEEN@[yt]@[x] as int,
        PieceKind::Unicorn => PST_QUEEN@[yt]@[x] as int,
        PieceKind::Dragon => PST_QUEEN@[yt]@[x] as int,
        PieceKind::Princess => PST_BISHOP@[yt]@[x] + half_toward_zero(PST_KNIGHT@[yt]@[x] as int),
        PieceKind::King => PST_KING_MID@[yt]@[x] as int,
    }
}

/// The rank of (x, y) seen from `color`'s side: y for White, 7 - y for Black.
pub open spec fn own_rank(color: Color, y: int) -> int {
    if color == Color::White {
        y
    } else {
        7 - y
    }
}

/// Piece-square value of a `kind` of `color` on (x, y).
pub open spec fn pst_value(kind: PieceKind, color: Color, x: int, y: int) -> int {
    pst_entry(kind, own_rank(color, y), x)
}

proof fn lemma_pst_range(kind: PieceKind, yt: int, x: int)
    requires
        0 <= yt < 8,
        0 <= x < 8,
    ensures
        -80 <= pst_entry(kind, yt, x) <= 60,
{
    assert(forall|i: int, j: int| 0 <= i < 8 && 0 <= j < 8 ==> -50 <= #[trigger] PST_PAWN@[i]@[j] <= 50);
    assert(forall|i: int, j: int| 0 <= i < 8 && 0 <= j < 8 ==> -50 <= #[trigger] PST_KNIGHT@[i]@[j] <= 50);
    assert(forall|i: int, j: int| 0 <= i < 8 && 0 <= j < 8 ==> -50 <= #[trigger] PST_BISHOP@[i]@[j] <= 50);
    assert(forall|i: int, j: int| 0 <= i < 8 && 0 <= j < 8 ==> -50 <= #[trigger] PST_ROOK@[i]@[j] <= 50);
    assert(forall|i: int, j: int| 0 <= i < 8 && 0 <= j < 8 ==> -50 <= #[trigger] PST_QUEEN@[i]@[j] <= 50);
    assert(forall|i: int, j: int| 0 <= i < 8 && 0 <= j < 8 ==> -50 <= #[trigger] PST_KING_MID@[i]@[j] <= 50);
}

fn half_toward_zero_exec(v: i32) -> (r: i32)
    requires
        -1000 <= v <= 1000,
    ensures
        r == half_toward_zero(v as int),
{
    if v >= 0 {
        v / 2
    } else {
        -((-v) / 2)
    }
}

fn pst(kind: PieceKind, color: Color, x: i8, y: i8) -> (r: i32)
    requires
        on_board(x as int, y as int),
    ensures
        r == pst_value(kind, color, x as int, y as int),
        -80 <= r <= 60,
{
    let xu = x as usize;
    let yu = y as usize;
    let yt: usize = if color == Color::White {
        yu
    } else {
        7 - yu
    };
    proof {
        lemma_pst_range(kind, yt as int, xu as int);
    }
    match kind {
        PieceKind::Pawn => PST_PAWN[yt][xu],
        PieceKind::Brawn => PST_PAWN[yt][xu] + 10,
        PieceKind::Knight => PST_KNIGHT[yt][xu],
        PieceKind::Bishop => PST_BISHOP[yt][xu],
        PieceKind::Rook => PST_ROOK[yt][xu],
        PieceKind::Queen => PST_QUEEN[yt][xu],
        PieceKind::Unicorn | PieceKind::Dragon => PST_QUEEN[yt][xu],
        PieceKind::Princess => {
            assert(-50 <= PST_KNIGHT@[yt as int]@[xu as int] <= 50);
            PST_BISHOP[yt][xu] + half_toward_zero_exec(PST_KNIGHT[yt][xu])
        },
        PieceKind::King => PST_KING_MID[yt][xu],
    }
}

// ---------------------------------------------------------------------------
// Sums over the board
// ---------------------------------------------------------------------------

/// Sum of `f(x, y)` over files `0..x` of rank `y`.
pub open spec fn sum_rank(f: spec_fn(int, int) -> int, y: int, x: int) -> int
    decreases x,
{
    if x <= 0 {
        0
    } else {
        sum_rank(f, y, x - 1) + f(x - 1, y)
    }
}

/// Sum of `f` over ranks `0..y`.
pub open spec fn sum_board(f: spec_fn(int, int) -> int, y: int) -> int
    decreases y,
{
    if y <= 0 {
        0
    } else {
        sum_board(f, y - 1) + sum_rank(f, y - 1, 8)
    }
}

proof fn lemma_sum_rank_bounds(f: spec_fn(int, int) -> int, y: int, x: int, lo: int, hi: int)
    requires
        0 <= x <= 8,
        forall|i: int| 0 <= i < 8 ==> lo <= #[trigger] f(i, y) <= hi,
    ensures
        x * lo <= sum_rank(f, y, x) <= x * hi,
    decreases x,
{
    if x > 0 {
        lemma_sum_rank_bounds(f, y, x - 1, lo, hi);
        assert(f(x - 1, y) >= lo);
        assert((x - 1) * lo + lo == x * lo) by (nonlinear_arith);
        assert((x - 1) * hi + hi == x * hi) by (nonlinear_arith);
    }
}

proof fn lemma_sum_board_bounds(f: spec_fn(int, int) -> int, y: int, x: int, lo: int, hi: int)
    requires
        0 <= y < 8,
        0 <= x <= 8,
        forall|i: int, j: int| 0 <= i < 8 && 0 <= j < 8 ==> lo <= #[trigger] f(i, j) <= hi,
    ensures
        (8 * y + x) * lo <= sum_board(f, y) + sum_rank(f, y, x) <= (8 * y + x) * hi,
    decreases y,
{
    lemma_sum_rank_bounds(f, y, x, lo, hi);
    if y > 0 {
        lemma_sum_board_bounds(f, y - 1, 8, lo, hi);
    }
    assert((8 * y + x) * lo == 8 * y * lo + x * lo) by (nonlinear_arith);
    assert((8 * y + x) * hi == 8 * y * hi + x * hi) by (nonlinear_arith);
    assert((8 * (y - 1) + 8) * lo == 8 * y * lo) by (nonlinear_arith);
    assert((8 * (y - 1) + 8) * hi == 8 * y * hi) by (nonlinear_arith);
}

// ---------------------------------------------------------------------------
// One board, one side
// ---------------------------------------------------------------------------

/// The rank on which a rook of `color` earns the seventh-rank bonus.
pub open spec fn seventh(color: Color) -> int {
    if color == Color::White {
        6
    } else {
        1
    }
}

/// Material, piece-square value and seventh-rank bonus of `color`'s piece on (x, y).
pub open spec fn square_term(b: Board, color: Color) -> spec_fn(int, int) -> int {
    |x: int, y: int|
        match sq(b, x, y) {
            Some(p) => if p.color == color {
                piece_worth(p.kind) + pst_value(p.kind, color, x, y) + if p.kind == PieceKind::Rook
                    && y == seventh(color) {
                    20int
                } else {
                    0
                }
            } else {
                0
            },
            None => 0,
        }
}

/// 1 for a bishop of `color` on (x, y).
pub open spec fn bishop_term(b: Board, color: Color) -> spec_fn(int, int) -> int {
    |x: int, y: int|
        if sq(b, x, y) matches Some(p) && p.color == color && p.kind == PieceKind::Bishop {
            1int
        } else {
            0
        }
}

/// A pawn-like piece of `color` on (x, y).
pub open spec fn own_pawn(b: Board, color: Color, x: int, y: int) -> bool {
    sq(b, x, y) matches Some(p) && p.color == color && pawnlike(p.kind)
}

/// Pawn-like pieces of `color` on file `x`, ranks `0..n`.
pub open spec fn file_pawns(b: Board, color: Color, x: int, n: int) -> int
    decreases n,
{
    if n <= 0 {
        0
    } else {
        file_pawns(b, color, x, n - 1) + if own_pawn(b, color, x, n - 1) {
            1int
        } else {
            0
        }
    }
}

/// Pawn-like pieces of `color` on file `x` (0 off the board).
pub open spec fn pawns_on_file(b: Board, color: Color, x: int) -> int {
    if 0 <= x < 8 {
        file_pawns(b, color, x, 8)
    } else {
        0
    }
}

/// Doubled-pawn penalty (15 per extra pawn) and isolated-file penalty (12) of file `x`.
pub open spec fn file_term(b: Board, color: Color, x: int) -> int {
    let n = pawns_on_file(b, color, x);
    (if n >= 2 {
        -15 * (n - 1)
    } else {
        0
    }) + (if n > 0 && pawns_on_file(b, color, x - 1) == 0 && pawns_on_file(b, color, x + 1) == 0 {
        -12int
    } else {
        0
    })
}

/// Sum of the file terms of files `0..x`.
pub open spec fn files_total(b: Board, color: Color, x: int) -> int
    decreases x,
{
    if x <= 0 {
        0
    } else {
        files_total(b, color, x - 1) + file_term(b, color, x - 1)
    }
}

/// A pawn-like piece of the other side on (x, y).
pub open spec fn enemy_pawn_at(b: Board, color: Color, x: int, y: int) -> bool {
    board_get(b, x, y) matches Some(p) && p.color != color && pawnlike(p.kind)
}

/// No enemy pawn-like piece on files x-1, x, x+1 of rank `r`.
pub open spec fn row_clear(b: Board, color: Color, x: int, r: int) -> bool {
    !enemy_pawn_at(b, color, x - 1, r) && !enemy_pawn_at(b, color, x, r) && !enemy_pawn_at(
        b,
        color,
        x + 1,
        r,
    )
}

/// Rank `r` lies ahead of rank `y` for `color`, up to the last rank.
pub open spec fn ahead(color: Color, y: int, r: int) -> bool {
    if color == Color::White {
        y < r <= 7
    } else {
        0 <= r < y
    }
}

/// A passed pawn: no enemy pawn-like piece ahead on its own or a neighbouring file.
pub open spec fn passed(b: Board, color: Color, x: int, y: int) -> bool {
    forall|r: int| ahead(color, y, r) ==> #[trigger] row_clear(b, color, x, r)
}

/// Passed-pawn bonus of `color`'s pawn on (x, y): 10 plus 5 per rank advanced.
pub open spec fn passed_term(b: Board, color: Color) -> spec_fn(int, int) -> int {
    |x: int, y: int|
        if own_pawn(b, color, x, y) && passed(b, color, x, y) {
            10 + 5 * own_rank(color, y)
        } else {
            0
        }
}

/// The evaluation of `color`'s side of one board.
pub open spec fn board_eval(b: Board, color: Color) -> int {
    sum_board(square_term(b, color), 8) + (if sum_board(bishop_term(b, color), 8) >= 2 {
        30int
    } else {
        0
    }) + files_total(b, color, 8) + sum_board(passed_term(b, color), 8)
}

/// Whether the pawn of `color` on (x, y) is passed.
fn is_passed_pawn(board: &Board, x: i8, y: i8, color: Color) -> (r: bool)
    requires
        on_board(x as int, y as int),
    ensures
        r == passed(*board, color, x as int, y as int),
{
    let step: i8 = if color == Color::White {
        1
    } else {
        -1
    };
    let target_end: i8 = if color == Color::White {
        7
    } else {
        0
    };
    let mut yy: i8 = y + step;
    while yy != target_end + step
        invariant
            on_board(x as int, y as int),
            step == (if color == Color::White {
                1i8
            } else {
                -1i8
            }),
            target_end == (if color == Color::White {
                7i8
            } else {
                0i8
            }),
            color == Color::White ==> y < yy <= 8,
            color == Color::Black ==> -1 <= yy < y,
            forall|r: int|
                ahead(color, y as int, r) && (if color == Color::White {
                    r < yy
                } else {
                    r > yy
                }) ==> #[trigger] row_clear(*board, color, x as int, r),
        decreases (if color == Color::White {
            8 - yy
        } else {
            yy + 1
        }),
    {
        let mut k: usize = 0;
        let dxs: [i8; 3] = [-1, 0, 1];
        while k < 3
            invariant
                k <= 3,
                dxs@ == seq![-1i8, 0i8, 1i8],
                on_board(x as int, y as int),
                0 <= yy < 8,
                color == Color::White ==> y < yy <= 7,
                color == Color::Black ==> 0 <= yy < y,
                forall|j: int| 0 <= j < k ==> !enemy_pawn_at(*board, color, x + dxs@[j], yy as int),
            decreases 3 - k,
        {
            let xx = x + dxs[k];
            if 0 <= xx && xx < 8 {
                if let Some(p) = board.get(xx, yy) {
                    if p.color != color && (p.kind == PieceKind::Pawn || p.kind == PieceKind::Brawn) {
                        proof {
                            assert(enemy_pawn_at(*board, color, xx as int, yy as int));
                            assert(ahead(color, y as int, yy as int));
                            assert(!row_clear(*board, color, x as int, yy as int));
                        }
                        return false;
                    }
                }
            }
            k = k + 1;
        }
        proof {
            assert(!enemy_pawn_at(*board, color, x + dxs@[0], yy as int));
            assert(!enemy_pawn_at(*board, color, x + dxs@[1], yy as int));
            assert(!enemy_pawn_at(*board, color, x + dxs@[2], yy as int));
            assert(row_clear(*board, color, x as int, yy as int));
        }
        yy = yy + step;
    }
    true
}

proof fn lemma_file_pawns_bounds(b: Board, color: Color, x: int, n: int)
    requires
        0 <= n <= 8,
    ensures
        0 <= file_pawns(b, color, x, n) <= n,
    decreases n,
{
    if n > 0 {
        lemma_file_pawns_bounds(b, color, x, n - 1);
    }
}

proof fn lemma_files_total_bounds(b: Board, color: Color, x: int)
    requires
        0 <= x <= 8,
    ensures
        -120 * x <= files_total(b, color, x) <= 0,
    decreases x,
{
    if x > 0 {
        lemma_files_total_bounds(b, color, x - 1);
        lemma_file_pawns_bounds(b, color, x - 1, 8);
    }
}

proof fn lemma_square_term_range(b: Board, color: Color)
    ensures
        forall|i: int, j: int| 0 <= i < 8 && 0 <= j < 8 ==> -100 <= #[trigger] square_term(b, color)(i, j) <= 20100,
{
    assert forall|i: int, j: int| 0 <= i < 8 && 0 <= j < 8 implies -100 <= #[trigger] square_term(b, color)(i, j) <= 20100 by {
        if let Some(p) = sq(b, i, j) {
            lemma_pst_range(p.kind, own_rank(color, j), i);
        }
    }
}

/// The evaluation of `color`'s side of `board`.
fn eval_board_for(board: &Board, color: Color) -> (r: i32)
    ensures
        r == board_eval(*board, color),
        -10_000 <= r <= 1_300_000,
{
    let ghost sf = square_term(*board, color);
    let ghost bf = bishop_term(*board, color);
    let ghost pf = passed_term(*board, color);
    proof {
        lemma_square_term_range(*board, color);
    }
    let mut score: i32 = 0;
    let mut bishop_count: i32 = 0;
    let mut pawn_files: [u8; 8] = [0, 0, 0, 0, 0, 0, 0, 0];
    let mut y: i8 = 0;
    while y < 8
        invariant
            0 <= y <= 8,
            sf == square_term(*board, color),
            bf == bishop_term(*board, color),
            forall|i: int, j: int| 0 <= i < 8 && 0 <= j < 8 ==> -100 <= #[trigger] sf(i, j) <= 20100,
            score == sum_board(sf, y as int),
            bishop_count == sum_board(bf, y as int),
            forall|i: int| 0 <= i < 8 ==> pawn_files@[i] == file_pawns(*board, color, i, y as int),
        decreases 8 - y,
    {
        let mut x: i8 = 0;
        while x < 8
            invariant
                0 <= x <= 8,
                0 <= y < 8,
                sf == square_term(*board, color),
                bf == bishop_term(*board, color),
                forall|i: int, j: int| 0 <= i < 8 && 0 <= j < 8 ==> -100 <= #[trigger] sf(i, j) <= 20100,
                score == sum_board(sf, y as int) + sum_rank(sf, y as int, x as int),
                bishop_count == sum_board(bf, y as int) + sum_rank(bf, y as int, x as int),
                forall|i: int|
                    0 <= i < 8 ==> pawn_files@[i] == file_pawns(
                        *board,
                        color,
                        i,
                        if i < x {
                            y + 1
                        } else {
                            y as int
                        },
                    ),
            decreases 8 - x,
        {
            proof {
                lemma_file_pawns_bounds(*board, color, x as int, y as int);
                lemma_sum_board_bounds(sf, y as int, x as int, -100, 20100);
                assert forall|i: int, j: int| 0 <= i < 8 && 0 <= j < 8 implies 0 <= #[trigger] bf(i, j) <= 1 by {}
                lemma_sum_board_bounds(bf, y as int, x as int, 0, 1);
                assert(0 <= 8 * y + x < 64);
            }
            if let Some(p) = board.get(x, y) {
                if p.color == color {
                    let v = piece_value(p.kind) + pst(p.kind, color, x, y);
                    score = score + v;
                    if p.kind == PieceKind::Bishop {
                        bishop_count = bishop_count + 1;
                    } else if p.kind == PieceKind::Pawn || p.kind == PieceKind::Brawn {
                        pawn_files[x as usize] = pawn_files[x as usize] + 1;
                    } else if p.kind == PieceKind::Rook {
                        let sev: i8 = if color == Color::White {
                            6
                        } else {
                            1
                        };
                        if y == sev {
                            score = score + 20;
                        }
                    }
                }
            }
            proof {
                assert(sum_rank(sf, y as int, x + 1) == sum_rank(sf, y as int, x as int) + sf(x as int, y as int));
                assert(sum_rank(bf, y as int, x + 1) == sum_rank(bf, y as int, x as int) + bf(x as int, y as int));
                assert(file_pawns(*board, color, x as int, y + 1) == file_pawns(*board, color, x as int, y as int) + if own_pawn(*board, color, x as int, y as int) {
                    1int
                } else {
                    0
                });
            }
            x = x + 1;
        }
        proof {
            assert(sum_board(sf, y + 1) == sum_board(sf, y as int) + sum_rank(sf, y as int, 8));
            assert(sum_board(bf, y + 1) == sum_board(bf, y as int) + sum_rank(bf, y as int, 8));
        }
        y = y + 1;
    }
    proof {
        lemma_sum_board_bounds(sf, 7, 8, -100, 20100);
        assert(sum_board(sf, 8) == sum_board(sf, 7) + sum_rank(sf, 7, 8));
    }
    if bishop_count >= 2 {
        score = score + 30;
    }
    let ghost s1 = score;
    proof {
        assert(forall|i: int| 0 <= i < 8 ==> pawn_files@[i] == pawns_on_file(*board, color, i));
        assert forall|i: int| 0 <= i < 8 implies 0 <= #[trigger] pawn_files@[i] <= 8 by {
            lemma_file_pawns_bounds(*board, color, i, 8);
        }
    }
    let mut fx: usize = 0;
    while fx < 8
        invariant
            fx <= 8,
            forall|i: int| 0 <= i < 8 ==> pawn_files@[i] == pawns_on_file(*board, color, i),
            forall|i: int| 0 <= i < 8 ==> 0 <= #[trigger] pawn_files@[i] <= 8,
            score == s1 + files_total(*board, color, fx as int),
            -100 * 64 <= s1 <= 20100 * 64 + 30,
            -120 * fx <= files_total(*board, color, fx as int) <= 0,
        decreases 8 - fx,
    {
        let n = pawn_files[fx];
        let ghost before = files_total(*board, color, fx as int);
        if n >= 2 {
            score = score - 15 * (n as i32 - 1);
        }
        if n > 0 {
            let left: u8 = if fx > 0 {
                pawn_files[fx - 1]
            } else {
                0
            };
            let right: u8 = if fx < 7 {
                pawn_files[fx + 1]
            } else {
                0
            };
            if left == 0 && right == 0 {
                score = score - 12;
            }
        }
        proof {
            lemma_files_total_bounds(*board, color, fx + 1);
        }
        fx = fx + 1;
    }
    let ghost s2 = score;
    proof {
        lemma_files_total_bounds(*board, color, 8);
        assert(forall|i: int, j: int| 0 <= i < 8 && 0 <= j < 8 ==> 0 <= #[trigger] pf(i, j) <= 45);
    }
    let mut y: i8 = 0;
    while y < 8
        invariant
            0 <= y <= 8,
            pf == passed_term(*board, color),
            forall|i: int, j: int| 0 <= i < 8 && 0 <= j < 8 ==> 0 <= #[trigger] pf(i, j) <= 45,
            score == s2 + sum_board(pf, y as int),
            -100 * 64 - 960 <= s2 <= 20100 * 64 + 30,
        decreases 8 - y,
    {
        let mut x: i8 = 0;
        while x < 8
            invariant
                0 <= x <= 8,
                0 <= y < 8,
                pf == passed_term(*board, color),
                forall|i: int, j: int| 0 <= i < 8 && 0 <= j < 8 ==> 0 <= #[trigger] pf(i, j) <= 45,
                score == s2 + sum_board(pf, y as int) + sum_rank(pf, y as int, x as int),
                -100 * 64 - 960 <= s2 <= 20100 * 64 + 30,
            decreases 8 - x,
        {
            proof {
                lemma_sum_board_bounds(pf, y as int, x as int, 0, 45);
            }
            if let Some(p) = board.get(x, y) {
                if p.color == color && (p.kind == PieceKind::Pawn || p.kind == PieceKind::Brawn)
                    && is_passed_pawn(board, x, y, color) {
                    let rank_from_start: i32 = if color == Color::White {
                        y as i32
                    } else {
                        7 - y as i32
                    };
                    score = score + 10 + 5 * rank_from_start;
                }
            }
            proof {
                assert(sum_rank(pf, y as int, x + 1) == sum_rank(pf, y as int, x as int) + pf(x as int, y as int));
            }
            x = x + 1;
        }
        proof {
            assert(sum_board(pf, y + 1) == sum_board(pf, y as int) + sum_rank(pf, y as int, 8));
        }
        y = y + 1;
    }
    proof {
        lemma_sum_board_bounds(pf, 7, 8, 0, 45);
        assert(sum_board(pf, 8) == sum_board(pf, 7) + sum_rank(pf, 7, 8));
    }
    score
}

// ---------------------------------------------------------------------------
// King shelter
// ---------------------------------------------------------------------------

/// 8 for a pawn (not a Brawn) of `color` on (x, y) of the board.
pub open spec fn shelter_pawn(b: Board, color: Color, x: int, y: int) -> int {
    if on_board(x, y) && (sq(b, x, y) matches Some(p) && p.kind == PieceKind::Pawn && p.color == color) {
        8
    } else {
        0
    }
}

/// Own pawns on the three squares in front of the king, 8 each; -5000 without a king.
pub open spec fn shelter_value(b: Board, color: Color) -> int {
    match first_king(b, color) {
        None => -5000,
        Some((kx, ky)) => {
            let py = if color == Color::White {
                ky + 1
            } else {
                ky - 1
            };
            shelter_pawn(b, color, kx - 1, py) + shelter_pawn(b, color, kx, py) + shelter_pawn(b, color, kx + 1, py)
        },
    }
}

fn king_shelter(board: &Board, color: Color) -> (r: i32)
    ensures
        r == shelter_value(*board, color),
        -5000 <= r <= 24,
{
    let fk = board.find_king(color);
    proof {
        crate::attack::lemma_first_king(*board, color, fk);
    }
    let (kx, ky) = match fk {
        Some(k) => k,
        None => {
            return -5000;
        },
    };
    let pawn_y: i8 = match color {
        Color::White => ky + 1,
        Color::Black => ky - 1,
    };
    let mut shelter: i32 = 0;
    let dxs: [i8; 3] = [-1, 0, 1];
    let mut k: usize = 0;
    while k < 3
        invariant
            k <= 3,
            dxs@ == seq![-1i8, 0i8, 1i8],
            on_board(kx as int, ky as int),
            pawn_y == (if color == Color::White {
                ky + 1
            } else {
                ky - 1
            }),
            shelter == (if k >= 1 {
                shelter_pawn(*board, color, kx - 1, pawn_y as int)
            } else {
                0
            }) + (if k >= 2 {
                shelter_pawn(*board, color, kx as int, pawn_y as int)
            } else {
                0
            }) + (if k >= 3 {
                shelter_pawn(*board, color, kx + 1, pawn_y as int)
            } else {
                0
            }),
        decreases 3 - k,
    {
        let px = kx + dxs[k];
        if 0 <= px && px < 8 && 0 <= pawn_y && pawn_y < 8 {
            if let Some(p) = board.get(px, pawn_y) {
                if p.kind == PieceKind::Pawn && p.color == color {
                    shelter = shelter + 8;
                }
            }
        }
        k = k + 1;
    }
    shelter
}

// ---------------------------------------------------------------------------
// Whole multiverse
// ---------------------------------------------------------------------------

/// Integer division toward zero by a positive divisor, as on machine integers.
pub open spec fn div_toward_zero(a: int, d: int) -> int {
    if a >= 0 {
        a / d
    } else {
        -((-a) / d)
    }
}

/// What timeline `l` adds: both sides' board evaluations (inactive timelines at 30%),
/// king shelter on active timelines, and the frontier term for an active latest
/// board at the present (-5 with White to move, +5 with Black to move).
pub open spec fn timeline_term(mv: MultiverseView, l: i32) -> int {
    let tl = mv.timelines[l];
    let b = latest_board(tl);
    let act = active(mv, l as int);
    let mult = if act {
        100int
    } else {
        30
    };
    div_toward_zero(board_eval(b, Color::White) * mult, 100) - div_toward_zero(board_eval(b, Color::Black) * mult, 100) + (if act {
        shelter_value(b, Color::White) - shelter_value(b, Color::Black)
    } else {
        0
    }) + (if act && last_t(tl) == present(mv) {
        if b.to_move == Color::White {
            -5int
        } else {
            5
        }
    } else {
        0
    })
}

/// Sum of the timeline terms of `ks`.
pub open spec fn timelines_total(mv: MultiverseView, ks: Seq<i32>) -> int
    decreases ks.len(),
{
    if ks.len() == 0 {
        0
    } else {
        timelines_total(mv, ks.drop_last()) + timeline_term(mv, ks.last())
    }
}

/// Active timelines among `ks` created by White (`positive`) or by Black.
pub open spec fn active_count(mv: MultiverseView, ks: Seq<i32>, positive: bool) -> int
    decreases ks.len(),
{
    if ks.len() == 0 {
        0
    } else {
        active_count(mv, ks.drop_last(), positive) + if active(mv, ks.last() as int) && (if positive {
            ks.last() > 0
        } else {
            ks.last() < 0
        }) {
            1int
        } else {
            0
        }
    }
}

/// The evaluation of a position from White's point of view.
pub open spec fn evaluation(mv: MultiverseView) -> int {
    let ks = keys_seq(mv);
    timelines_total(mv, ks) + (white_tls(mv) - black_tls(mv)) * 20 + (active_count(mv, ks, true)
        - active_count(mv, ks, false)) * 8 + if mv.global_to_move == Color::White {
        10int
    } else {
        -10
    }
}

// ---------------------------------------------------------------------------
// Colour symmetry of one board
// ---------------------------------------------------------------------------

/// The content of a square with the colours swapped.
pub open spec fn swap_colour(p: Option<Piece>) -> Option<Piece> {
    match p {
        Some(q) => Some(Piece { color: opposite(q.color), ..q }),
        None => None,
    }
}

/// `mb` is `b` turned over: rank `y` of `mb` is rank `7 - y` of `b` with the colours
/// of its pieces swapped.
pub open spec fn colour_mirror(b: Board, mb: Board) -> bool {
    forall|x: int, y: int| #[trigger] board_get(mb, x, y) == swap_colour(board_get(b, x, 7 - y))
}

proof fn lemma_sum_rank_same(f: spec_fn(int, int) -> int, g: spec_fn(int, int) -> int, yf: int, yg: int, x: int)
    requires
        0 <= x <= 8,
        forall|i: int| 0 <= i < 8 ==> #[trigger] g(i, yg) == f(i, yf),
    ensures
        sum_rank(g, yg, x) == sum_rank(f, yf, x),
    decreases x,
{
    if x > 0 {
        lemma_sum_rank_same(f, g, yf, yg, x - 1);
        assert(g(x - 1, yg) == f(x - 1, yf));
    }
}

proof fn lemma_sum_board_turned(f: spec_fn(int, int) -> int, g: spec_fn(int, int) -> int, n: int)
    requires
        0 <= n <= 8,
        forall|i: int, j: int| 0 <= i < 8 && 0 <= j < 8 ==> #[trigger] g(i, j) == f(i, 7 - j),
    ensures
        sum_board(g, n) + sum_board(f, 8 - n) == sum_board(f, 8),
    decreases n,
{
    if n > 0 {
        lemma_sum_board_turned(f, g, n - 1);
        assert forall|i: int| 0 <= i < 8 implies #[trigger] g(i, n - 1) == f(i, 8 - n) by {
            assert(g(i, n - 1) == f(i, 7 - (n - 1)));
        }
        lemma_sum_rank_same(f, g, 8 - n, n - 1, 8);
        assert(sum_board(f, 9 - n) == sum_board(f, 8 - n) + sum_rank(f, 8 - n, 8));
    }
}

proof fn lemma_file_pawns_turned(b: Board, mb: Board, c: Color, x: int, n: int)
    requires
        colour_mirror(b, mb),
        0 <= x < 8,
        0 <= n <= 8,
    ensures
        file_pawns(mb, c, x, n) + file_pawns(b, opposite(c), x, 8 - n) == file_pawns(b, opposite(c), x, 8),
    decreases n,
{
    if n > 0 {
        lemma_file_pawns_turned(b, mb, c, x, n - 1);
        assert(board_get(mb, x, n - 1) == swap_colour(board_get(b, x, 7 - (n - 1))));
        assert(own_pawn(mb, c, x, n - 1) == own_pawn(b, opposite(c), x, 8 - n));
        assert(file_pawns(b, opposite(c), x, 9 - n) == file_pawns(b, opposite(c), x, 8 - n) + if own_pawn(
            b,
            opposite(c),
            x,
            8 - n,
        ) {
            1int
        } else {
            0
        });
    }
}

proof fn lemma_files_total_turned(b: Board, mb: Board, c: Color, x: int)
    requires
        colour_mirror(b, mb),
        0 <= x <= 8,
    ensures
        files_total(mb, c, x) == files_total(b, opposite(c), x),
    decreases x,
{
    if x > 0 {
        lemma_files_total_turned(b, mb, c, x - 1);
        assert forall|f: int| 0 <= f < 8 implies pawns_on_file(mb, c, f) == pawns_on_file(b, opposite(c), f) by {
            lemma_file_pawns_turned(b, mb, c, f, 8);
        }
        assert(file_term(mb, c, x - 1) == file_term(b, opposite(c), x - 1));
    }
}

proof fn lemma_passed_turned(b: Board, mb: Board, c: Color, x: int, y: int)
    requires
        colour_mirror(b, mb),
        on_board(x, y),
    ensures
        passed(mb, c, x, y) == passed(b, opposite(c), x, 7 - y),
{
    assert forall|r: int| #![trigger row_clear(mb, c, x, r)] row_clear(mb, c, x, r) == row_clear(
        b,
        opposite(c),
        x,
        7 - r,
    ) by {
        assert(board_get(mb, x - 1, r) == swap_colour(board_get(b, x - 1, 7 - r)));
        assert(board_get(mb, x, r) == swap_colour(board_get(b, x, 7 - r)));
        assert(board_get(mb, x + 1, r) == swap_colour(board_get(b, x + 1, 7 - r)));
    }
    if passed(mb, c, x, y) {
        assert forall|r: int| ahead(opposite(c), 7 - y, r) implies #[trigger] row_clear(b, opposite(c), x, r) by {
            assert(ahead(c, y, 7 - r));
            assert(row_clear(mb, c, x, 7 - r));
        }
    }
    if passed(b, opposite(c), x, 7 - y) {
        assert forall|r: int| ahead(c, y, r) implies #[trigger] row_clear(mb, c, x, r) by {
            assert(ahead(opposite(c), 7 - y, 7 - r));
            assert(row_clear(b, opposite(c), x, 7 - r));
        }
    }
}

/// Turning a board over and swapping the colours of its pieces swaps the two sides'
/// evaluations: material, piece-square values, seventh-rank rooks, the bishop pair,
/// doubled, isolated and passed pawns.
pub proof fn lemma_board_eval_colour_mirror(b: Board, mb: Board, c: Color)
    requires
        colour_mirror(b, mb),
    ensures
        board_eval(mb, c) == board_eval(b, opposite(c)),
{
    let oc = opposite(c);
    assert forall|i: int, j: int| 0 <= i < 8 && 0 <= j < 8 implies #[trigger] square_term(mb, c)(i, j)
        == square_term(b, oc)(i, 7 - j) by {
        assert(board_get(mb, i, j) == swap_colour(board_get(b, i, 7 - j)));
    }
    lemma_sum_board_turned(square_term(b, oc), square_term(mb, c), 8);
    assert forall|i: int, j: int| 0 <= i < 8 && 0 <= j < 8 implies #[trigger] bishop_term(mb, c)(i, j)
        == bishop_term(b, oc)(i, 7 - j) by {
        assert(board_get(mb, i, j) == swap_colour(board_get(b, i, 7 - j)));
    }
    lemma_sum_board_turned(bishop_term(b, oc), bishop_term(mb, c), 8);
    assert forall|i: int, j: int| 0 <= i < 8 && 0 <= j < 8 implies #[trigger] passed_term(mb, c)(i, j)
        == passed_term(b, oc)(i, 7 - j) by {
        assert(board_get(mb, i, j) == swap_colour(board_get(b, i, 7 - j)));
        lemma_passed_turned(b, mb, c, i, j);
    }
    lemma_sum_board_turned(passed_term(b, oc), passed_term(mb, c), 8);
    lemma_files_total_turned(b, mb, c, 8);
    assert(sum_board(square_term(b, oc), 0) == 0);
}

// ---------------------------------------------------------------------------
// Adding a piece to one board
// ---------------------------------------------------------------------------

/// `b2` is `b` with the empty square (x, y) now holding `q`.
pub open spec fn placed(b: Board, b2: Board, x: int, y: int, q: Piece) -> bool {
    &&& on_board(x, y)
    &&& sq(b, x, y) is None
    &&& sq(b2, x, y) == Some(q)
    &&& forall|i: int, j: int| on_board(i, j) && (i != x || j != y) ==> #[trigger] sq(b2, i, j) == sq(b, i, j)
    &&& b2.to_move == b.to_move
}

proof fn lemma_sum_rank_point(f: spec_fn(int, int) -> int, g: spec_fn(int, int) -> int, j: int, n: int, x: int, y: int, delta: int)
    requires
        0 <= n <= 8,
        forall|i: int| 0 <= i < 8 && (i != x || j != y) ==> #[trigger] g(i, j) == f(i, j),
        0 <= x < 8 && j == y ==> g(x, y) == f(x, y) + delta,
    ensures
        sum_rank(g, j, n) == sum_rank(f, j, n) + (if j == y && 0 <= x < n {
            delta
        } else {
            0
        }),
    decreases n,
{
    if n > 0 {
        lemma_sum_rank_point(f, g, j, n - 1, x, y, delta);
        if !(j == y && n - 1 == x) {
            assert(g(n - 1, j) == f(n - 1, j));
        }
    }
}

proof fn lemma_sum_board_point(f: spec_fn(int, int) -> int, g: spec_fn(int, int) -> int, n: int, x: int, y: int, delta: int)
    requires
        0 <= n <= 8,
        0 <= x < 8,
        0 <= y < 8,
        forall|i: int, j: int| 0 <= i < 8 && 0 <= j < 8 && (i != x || j != y) ==> #[trigger] g(i, j) == f(i, j),
        g(x, y) == f(x, y) + delta,
    ensures
        sum_board(g, n) == sum_board(f, n) + (if y < n {
            delta
        } else {
            0
        }),
    decreases n,
{
    if n > 0 {
        lemma_sum_board_point(f, g, n - 1, x, y, delta);
        lemma_sum_rank_point(f, g, n - 1, 8, x, y, delta);
    }
}

proof fn lemma_placed_board_get(b: Board, b2: Board, x: int, y: int, q: Piece)
    requires
        placed(b, b2, x, y, q),
    ensures
        forall|i: int, j: int| (i != x || j != y) ==> #[trigger] board_get(b2, i, j) == board_get(b, i, j),
{
    assert forall|i: int, j: int| (i != x || j != y) implies #[trigger] board_get(b2, i, j) == board_get(b, i, j) by {
        if on_board(i, j) {
            assert(sq(b2, i, j) == sq(b, i, j));
        }
    }
}

proof fn lemma_placed_files(b: Board, b2: Board, x: int, y: int, q: Piece, c: Color, f: int, n: int)
    requires
        placed(b, b2, x, y, q),
        !pawnlike(q.kind),
        0 <= n <= 8,
        0 <= f < 8,
    ensures
        file_pawns(b2, c, f, n) == file_pawns(b, c, f, n),
    decreases n,
{
    if n > 0 {
        lemma_placed_files(b, b2, x, y, q, c, f, n - 1);
        if f != x || n - 1 != y {
            if on_board(f, n - 1) {
                assert(sq(b2, f, n - 1) == sq(b, f, n - 1));
            }
        }
    }
}

proof fn lemma_placed_files_total(b: Board, b2: Board, x: int, y: int, q: Piece, c: Color, n: int)
    requires
        placed(b, b2, x, y, q),
        !pawnlike(q.kind),
        0 <= n <= 8,
    ensures
        files_total(b2, c, n) == files_total(b, c, n),
    decreases n,
{
    if n > 0 {
        lemma_placed_files_total(b, b2, x, y, q, c, n - 1);
        assert forall|f: int| 0 <= f < 8 implies pawns_on_file(b2, c, f) == pawns_on_file(b, c, f) by {
            lemma_placed_files(b, b2, x, y, q, c, f, 8);
        }
        assert(file_term(b2, c, n - 1) == file_term(b, c, n - 1));
    }
}

proof fn lemma_placed_king(b: Board, b2: Board, x: int, y: int, q: Piece, c: Color)
    requires
        placed(b, b2, x, y, q),
        q.kind != PieceKind::King,
    ensures
        first_king(b2, c) == first_king(b, c),
{
    assert forall|i: int, j: int| on_board(i, j) implies #[trigger] king_on(b2, i, j, c) == king_on(b, i, j, c) by {
        if i != x || j != y {
            assert(sq(b2, i, j) == sq(b, i, j));
        }
    }
    assert forall|i: int, j: int| #[trigger] is_first_king(b2, c, i, j) == is_first_king(b, c, i, j) by {
        if on_board(i, j) {
            assert(king_on(b2, i, j, c) == king_on(b, i, j, c));
        }
    }
    if exists|i: int, j: int| is_first_king(b, c, i, j) {
        let (i1, j1) = choose|i: int, j: int| is_first_king(b, c, i, j);
        let (i2, j2) = choose|i: int, j: int| is_first_king(b2, c, i, j);
        assert(is_first_king(b2, c, i1, j1));
        assert(is_first_king(b, c, i2, j2));
        if i1 != i2 || j1 != j2 {
            if scan_before(i1, j1, i2, j2) {
                assert(!king_on(b, i1, j1, c));
            } else {
                assert(scan_before(i2, j2, i1, j1));
                assert(!king_on(b, i2, j2, c));
            }
        }
    } else {
        assert(!exists|i: int, j: int| is_first_king(b2, c, i, j));
    }
}

/// Placing a piece that is neither pawn-like nor a king on an empty square adds to its
/// side's evaluation exactly its material and piece-square value (plus the
/// seventh-rank bonus of a rook), and leaves the other side's evaluation and both
/// kings' shelters as they were.
pub proof fn lemma_placed_piece_eval(b: Board, b2: Board, x: int, y: int, q: Piece)
    requires
        placed(b, b2, x, y, q),
        !pawnlike(q.kind),
        q.kind != PieceKind::King,
        q.kind != PieceKind::Bishop,
        q.kind != PieceKind::Rook,
    ensures
        board_eval(b2, q.color) == board_eval(b, q.color) + piece_worth(q.kind) + pst_value(q.kind, q.color, x, y),
        board_eval(b2, opposite(q.color)) == board_eval(b, opposite(q.color)),
        shelter_value(b2, Color::White) == shelter_value(b, Color::White),
        shelter_value(b2, Color::Black) == shelter_value(b, Color::Black),
{
    lemma_placed_board_get(b, b2, x, y, q);
    assert forall|c: Color| #![trigger board_eval(b2, c)] true implies {
        &&& sum_board(bishop_term(b2, c), 8) == sum_board(bishop_term(b, c), 8)
        &&& sum_board(passed_term(b2, c), 8) == sum_board(passed_term(b, c), 8)
        &&& files_total(b2, c, 8) == files_total(b, c, 8)
    } by {
        assert forall|i: int, j: int| 0 <= i < 8 && 0 <= j < 8 && (i != x || j != y) implies #[trigger] bishop_term(b2, c)(i, j)
            == bishop_term(b, c)(i, j) by {
            assert(sq(b2, i, j) == sq(b, i, j));
        }
        lemma_sum_board_point(bishop_term(b, c), bishop_term(b2, c), 8, x, y, 0);
        assert forall|i: int, j: int| 0 <= i < 8 && 0 <= j < 8 implies #[trigger] passed_term(b2, c)(i, j)
            == passed_term(b, c)(i, j) by {
            assert forall|r: int| #![trigger row_clear(b2, c, i, r)] row_clear(b2, c, i, r) == row_clear(b, c, i, r) by {
                assert(board_get(b2, i - 1, r) == board_get(b, i - 1, r) || (i - 1 == x && r == y));
                assert(board_get(b2, i, r) == board_get(b, i, r) || (i == x && r == y));
                assert(board_get(b2, i + 1, r) == board_get(b, i + 1, r) || (i + 1 == x && r == y));
            }
            if i != x || j != y {
                assert(sq(b2, i, j) == sq(b, i, j));
            }
            if passed(b, c, i, j) {
                assert forall|r: int| ahead(c, j, r) implies #[trigger] row_clear(b2, c, i, r) by {
                    assert(row_clear(b, c, i, r));
                }
            }
            if passed(b2, c, i, j) {
                assert forall|r: int| ahead(c, j, r) implies #[trigger] row_clear(b, c, i, r) by {
                    assert(row_clear(b2, c, i, r));
                }
            }
            assert(passed(b2, c, i, j) == passed(b, c, i, j));
        }
        lemma_sum_board_point(passed_term(b, c), passed_term(b2, c), 8, x, y, 0);
        lemma_placed_files_total(b, b2, x, y, q, c, 8);
    }
    let c = q.color;
    let oc = opposite(c);
    assert(board_eval(b2, c) == board_eval(b2, c));
    assert(board_eval(b2, oc) == board_eval(b2, oc));
    assert forall|i: int, j: int| 0 <= i < 8 && 0 <= j < 8 && (i != x || j != y) implies #[trigger] square_term(b2, c)(i, j)
        == square_term(b, c)(i, j) by {
        assert(sq(b2, i, j) == sq(b, i, j));
    }
    lemma_sum_board_point(square_term(b, c), square_term(b2, c), 8, x, y, piece_worth(q.kind) + pst_value(q.kind, c, x, y));
    assert forall|i: int, j: int| 0 <= i < 8 && 0 <= j < 8 && (i != x || j != y) implies #[trigger] square_term(b2, oc)(i, j)
        == square_term(b, oc)(i, j) by {
        assert(sq(b2, i, j) == sq(b, i, j));
    }
    lemma_sum_board_point(square_term(b, oc), square_term(b2, oc), 8, x, y, 0);
    lemma_placed_king(b, b2, x, y, q, Color::White);
    lemma_placed_king(b, b2, x, y, q, Color::Black);
    assert forall|i: int, j: int| #[trigger] shelter_pawn(b2, Color::White, i, j) == shelter_pawn(b, Color::White, i, j) by {
        if on_board(i, j) && (i != x || j != y) {
            assert(sq(b2, i, j) == sq(b, i, j));
        }
    }
    assert forall|i: int, j: int| #[trigger] shelter_pawn(b2, Color::Black, i, j) == shelter_pawn(b, Color::Black, i, j) by {
        if on_board(i, j) && (i != x || j != y) {
            assert(sq(b2, i, j) == sq(b, i, j));
        }
    }
}

/// `mv2` is `mv` with the latest board of timeline `l` replaced by `b2`.
pub open spec fn with_latest(mv: MultiverseView, mv2: MultiverseView, l: i32, b2: Board) -> bool {
    let tl = mv.timelines[l];
    mv2 == MultiverseView {
        timelines: mv.timelines.insert(
            l,
            TimelineView { boards: tl.boards.update(tl.boards.len() - 1, b2), ..tl },
        ),
        ..mv
    }
}

proof fn lemma_mins_same(mv: MultiverseView, mv2: MultiverseView, ks: Seq<i32>, side: Color)
    requires
        keys_seq(mv) == keys_seq(mv2),
        forall|k: i32| #[trigger] mv2.timelines[k] == mv.timelines[k] || (last_t(mv2.timelines[k]) == last_t(
            mv.timelines[k],
        ) && latest_board(mv2.timelines[k]).to_move == latest_board(mv.timelines[k]).to_move),
    ensures
        side_min(mv2, ks, side) == side_min(mv, ks, side),
        active_min(mv2, ks) == active_min(mv, ks),
    decreases ks.len(),
{
    if ks.len() > 0 {
        lemma_mins_same(mv, mv2, ks.drop_last(), side);
        let k = ks.last();
        assert(mv2.timelines[k] == mv.timelines[k] || (last_t(mv2.timelines[k]) == last_t(mv.timelines[k])
            && latest_board(mv2.timelines[k]).to_move == latest_board(mv.timelines[k]).to_move));
    }
}

proof fn lemma_totals_differ_at(mv: MultiverseView, mv2: MultiverseView, ks: Seq<i32>, l: i32, delta: int)
    requires
        ks.no_duplicates(),
        forall|k: i32| k != l ==> #[trigger] timeline_term(mv2, k) == timeline_term(mv, k),
        timeline_term(mv2, l) == timeline_term(mv, l) + delta,
    ensures
        timelines_total(mv2, ks) == timelines_total(mv, ks) + (if ks.contains(l) {
            delta
        } else {
            0
        }),
    decreases ks.len(),
{
    if ks.len() > 0 {
        let rest = ks.drop_last();
        assert(rest.no_duplicates());
        lemma_totals_differ_at(mv, mv2, rest, l, delta);
        let k = ks.last();
        if k == l {
            assert(ks.contains(l));
            if rest.contains(l) {
                let j = choose|j: int| 0 <= j < rest.len() && rest[j] == l;
                assert(ks[j] == ks[ks.len() - 1]);
            }
        } else {
            assert(timeline_term(mv2, k) == timeline_term(mv, k));
            if ks.contains(l) {
                let j = choose|j: int| 0 <= j < ks.len() && ks[j] == l;
                assert(rest[j] == l);
            }
            if rest.contains(l) {
                let j = choose|j: int| 0 <= j < rest.len() && rest[j] == l;
                assert(ks[j] == l);
            }
        }
    }
}

/// Putting a piece that is neither pawn-like, king, bishop nor rook on an empty square
/// of the latest board of an active timeline, whatever the timeline's index, changes
/// the evaluation by exactly that piece's worth and piece-square value: up for a White
/// piece, down for a Black one.
pub proof fn lemma_placed_piece_changes_evaluation(mv: MultiverseView, mv2: MultiverseView, l: i32, b2: Board, x: int, y: int, q: Piece)
    requires
        mv_wf(mv),
        mv.timelines.contains_key(l),
        active(mv, l as int),
        placed(latest_board(mv.timelines[l]), b2, x, y, q),
        with_latest(mv, mv2, l, b2),
        !pawnlike(q.kind),
        q.kind != PieceKind::King,
        q.kind != PieceKind::Bishop,
        q.kind != PieceKind::Rook,
    ensures
        evaluation(mv2) == evaluation(mv) + (if q.color == Color::White {
            piece_worth(q.kind) + pst_value(q.kind, q.color, x, y)
        } else {
            -(piece_worth(q.kind) + pst_value(q.kind, q.color, x, y))
        }),
{
    let tl = mv.timelines[l];
    let tl2 = mv2.timelines[l];
    let b = latest_board(tl);
    let gain = piece_worth(q.kind) + pst_value(q.kind, q.color, x, y);
    let delta = if q.color == Color::White {
        gain
    } else {
        -gain
    };
    assert(mv2.timelines.dom() =~= mv.timelines.dom());
    assert(keys_seq(mv2) == keys_seq(mv));
    lemma_keys_seq_props(mv);
    assert(tl2.boards.len() == tl.boards.len());
    assert(latest_board(tl2) == b2);
    assert(last_t(tl2) == last_t(tl));
    assert forall|k: i32| #[trigger] mv2.timelines[k] == mv.timelines[k] || (last_t(mv2.timelines[k]) == last_t(
        mv.timelines[k],
    ) && latest_board(mv2.timelines[k]).to_move == latest_board(mv.timelines[k]).to_move) by {
        if k != l {
            assert(mv2.timelines[k] == mv.timelines[k]);
        }
    }
    lemma_mins_same(mv, mv2, keys_seq(mv), mv.global_to_move);
    assert(present(mv2) == present(mv));
    assert forall|k: i32| #![trigger active(mv2, k as int)] active(mv2, k as int) == active(mv, k as int) by {}
    assert forall|k: i32| k != l implies #[trigger] timeline_term(mv2, k) == timeline_term(mv, k) by {
        assert(mv2.timelines[k] == mv.timelines[k]);
        assert(active(mv2, k as int) == active(mv, k as int));
    }
    lemma_placed_piece_eval(b, b2, x, y, q);
    let ew = board_eval(b, Color::White);
    let eb = board_eval(b, Color::Black);
    let ew2 = board_eval(b2, Color::White);
    let eb2 = board_eval(b2, Color::Black);
    assert(div_toward_zero(ew * 100, 100) == ew) by (nonlinear_arith);
    assert(div_toward_zero(eb * 100, 100) == eb) by (nonlinear_arith);
    assert(div_toward_zero(ew2 * 100, 100) == ew2) by (nonlinear_arith);
    assert(div_toward_zero(eb2 * 100, 100) == eb2) by (nonlinear_arith);
    assert(active(mv2, l as int));
    assert(timeline_term(mv2, l) == timeline_term(mv, l) + delta);
    assert(keys_seq(mv).no_duplicates()) by {
        assert forall|i: int, j: int| 0 <= i < j < keys_seq(mv).len() implies keys_seq(mv)[i] != keys_seq(mv)[j] by {}
    }
    assert(keys_seq(mv).contains(l)) by {
        assert(keys_seq(mv).to_set().contains(l));
    }
    lemma_totals_differ_at(mv, mv2, keys_seq(mv), l, delta);
    assert(active_count(mv2, keys_seq(mv), true) == active_count(mv, keys_seq(mv), true)) by {
        lemma_active_counts_same(mv, mv2, keys_seq(mv), true);
    }
    assert(active_count(mv2, keys_seq(mv), false) == active_count(mv, keys_seq(mv), false)) by {
        lemma_active_counts_same(mv, mv2, keys_seq(mv), false);
    }
}

proof fn lemma_active_counts_same(mv: MultiverseView, mv2: MultiverseView, ks: Seq<i32>, positive: bool)
    requires
        keys_seq(mv) == keys_seq(mv2),
    ensures
        active_count(mv2, ks, positive) == active_count(mv, ks, positive),
    decreases ks.len(),
{
    if ks.len() > 0 {
        lemma_active_counts_same(mv, mv2, ks.drop_last(), positive);
    }
}

proof fn lemma_active_count_bounds(mv: MultiverseView, ks: Seq<i32>, positive: bool)
    ensures
        0 <= active_count(mv, ks, positive) <= ks.len(),
    decreases ks.len(),
{
    if ks.len() > 0 {
        lemma_active_count_bounds(mv, ks.drop_last(), positive);
    }
}

/// What timeline `l` adds to the evaluation (see `timeline_term`).
fn timeline_eval(mv: &Multiverse, lim: i32, present_t: i32, l: i32) -> (term: i64)
    requires
        mv_wf(mv@),
        lim_ok(mv@, lim),
        present_t == present(mv@),
        mv.timelines@.contains_key(l),
    ensures
        term == timeline_term(mv@, l),
        -2_700_000 <= term <= 2_700_000,
{
    proof {
        crate::multiverse::lemma_view_timelines(*mv);
    }
    let tl = mv.timelines.get(&l).unwrap();
    let t = tl.latest_t();
    let board = &tl.boards[tl.boards.len() - 1];
    let act = within(l, lim);
    let mult: i64 = if act {
        100
    } else {
        30
    };
    let we = eval_board_for(board, Color::White) as i64 * mult;
    let be = eval_board_for(board, Color::Black) as i64 * mult;
    let w: i64 = if we >= 0 {
        we / 100
    } else {
        -((-we) / 100)
    };
    let b: i64 = if be >= 0 {
        be / 100
    } else {
        -((-be) / 100)
    };
    let mut term: i64 = w - b;
    if act {
        term = term + king_shelter(board, Color::White) as i64 - king_shelter(board, Color::Black) as i64;
    }
    if act && t == present_t {
        let frontier_bonus: i64 = if board.to_move == Color::White {
            -5
        } else {
            5
        };
        term = term + frontier_bonus;
    }
    term
}

/// The evaluation in 64 bits, where no sum can overflow.
pub(crate) fn evaluate_wide(mv: &Multiverse) -> (r: i64)
    requires
        mv_wf(mv@),
    ensures
        r == evaluation(mv@),
        -4_000_000_000_000_000 <= r <= 4_000_000_000_000_000,
{
    let present_t = mv.present_t();
    let ks = mv.timeline_keys();
    let lim = mv.active_limit();
    proof {
        crate::multiverse::lemma_keys_seq_props(mv@);
        crate::multiverse::lemma_view_timelines(*mv);
        crate::multiverse::lemma_keys_len(mv@);
    }
    let mut score: i64 = 0;
    let mut w_active: i64 = 0;
    let mut b_active: i64 = 0;
    let mut i: usize = 0;
    while i < ks.len()
        invariant
            i <= ks@.len(),
            ks@ == keys_seq(mv@),
            ks@.len() < 0x4000_0000,
            ks@.to_set() == mv@.timelines.dom(),
            mv@.timelines.dom() == mv.timelines@.dom(),
            forall|l: i32| #[trigger] mv.timelines@.contains_key(l) ==> mv@.timelines[l] == mv.timelines@[l]@,
            mv_wf(mv@),
            lim_ok(mv@, lim),
            present_t == present(mv@),
            score == timelines_total(mv@, ks@.take(i as int)),
            -2_700_000 * i <= score <= 2_700_000 * i,
            w_active == active_count(mv@, ks@.take(i as int), true),
            b_active == active_count(mv@, ks@.take(i as int), false),
            0 <= w_active <= i,
            0 <= b_active <= i,
        decreases ks@.len() - i,
    {
        let l = ks[i];
        proof {
            assert(ks@.to_set().contains(l));
            assert(ks@.take(i + 1).drop_last() =~= ks@.take(i as int));
        }
        let term = timeline_eval(mv, lim, present_t, l);
        if within(l, lim) {
            if l > 0 {
                w_active = w_active + 1;
            } else if l < 0 {
                b_active = b_active + 1;
            }
        }
        score = score + term;
        i = i + 1;
    }
    proof {
        assert(ks@.take(ks@.len() as int) =~= ks@);
    }
    let (wt, bt) = mv.timeline_counts();
    score = score + (wt as i64 - bt as i64) * 20;
    score = score + (w_active - b_active) * 8;
    let tempo: i64 = match mv.global_to_move {
        Color::White => 10,
        Color::Black => -10,
    };
    score + tempo
}

/// The evaluation of a position in centipawns, from White's point of view (see
/// `evaluation`); the value must fit in an `i32`.
pub fn evaluate(mv: &Multiverse) -> (r: i32)
    requires
        mv_wf(mv@),
        i32::MIN <= evaluation(mv@) <= i32::MAX,
    ensures
        r == evaluation(mv@),
{
    evaluate_wide(mv) as i32
}

} // verus!
