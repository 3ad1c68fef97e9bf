//! Applying moves and turns to the multiverse.

use std::collections::BTreeMap;
use std::sync::Arc;

use vstd::prelude::*;

use crate::board::{in_bounds, lemma_board_ext, on_board, right, sq, Board, CastleSide, CastlingRights};
use crate::moves::{cross_board, Move, MoveKind, TurnPlan};
use crate::multiverse::{
    board_at, has_tl, indices_fresh, last_t, piece_at, mv_wf, tl_at, tl_board, tl_wf, Multiverse, MultiverseView, Timeline, TimelineView,
};
use crate::types::{opposite, Color, Piece, PieceKind};
use crate::zobrist::{position_hash, zobrist};
use crate::attack::kind_absent;

verus! {

broadcast use vstd::std_specs::btree::group_btree_axioms, vstd::laws_cmp::group_laws_cmp;

/// The moving piece after the move: marked as moved, promoted when the move says so.
pub open spec fn moved_piece(p: Piece, m: Move) -> Piece {
    Piece {
        kind: match m.promotion {
            Some(k) => k,
            None => p.kind,
        },
        color: p.color,
        has_moved: true,
    }
}

/// Castling rights lost by moving `p` from (fx, fy): both of the king's sides for a
/// king, one side for a rook leaving its corner.
pub open spec fn revoked_by_move(p: Piece, fx: int, fy: int, s: CastleSide) -> bool {
    if p.kind == PieceKind::King {
        if p.color == Color::White {
            s == CastleSide::WhiteKing || s == CastleSide::WhiteQueen
        } else {
            s == CastleSide::BlackKing || s == CastleSide::BlackQueen
        }
    } else if p.kind == PieceKind::Rook {
        if p.color == Color::White {
            (fy == 0 && fx == 0 && s == CastleSide::WhiteQueen) || (fy == 0 && fx == 7 && s
                == CastleSide::WhiteKing)
        } else {
            (fy == 7 && fx == 0 && s == CastleSide::BlackQueen) || (fy == 7 && fx == 7 && s
                == CastleSide::BlackKing)
        }
    } else {
        false
    }
}

/// Castling rights lost by a capture on a starting corner.
pub open spec fn revoked_by_capture(cx: int, cy: int, s: CastleSide) -> bool {
    (cx == 0 && cy == 0 && s == CastleSide::WhiteQueen) || (cx == 7 && cy == 0 && s
        == CastleSide::WhiteKing) || (cx == 0 && cy == 7 && s == CastleSide::BlackQueen) || (cx == 7
        && cy == 7 && s == CastleSide::BlackKing)
}

fn update_castling_rights(cr: &mut CastlingRights, fx: i8, fy: i8, p: Piece)
    ensures
        forall|s: CastleSide|
            right(*final(cr), s) == (right(*old(cr), s) && !revoked_by_move(
                p,
                fx as int,
                fy as int,
                s,
            )),
{
    match (p.kind, p.color) {
        (PieceKind::King, Color::White) => {
            cr.set(CastleSide::WhiteKing, false);
            cr.set(CastleSide::WhiteQueen, false);
        },
        (PieceKind::King, Color::Black) => {
            cr.set(CastleSide::BlackKing, false);
            cr.set(CastleSide::BlackQueen, false);
        },
        (PieceKind::Rook, Color::White) => {
            if fy == 0 && fx == 0 {
                cr.set(CastleSide::WhiteQueen, false);
            } else if fy == 0 && fx == 7 {
                cr.set(CastleSide::WhiteKing, false);
            }
        },
        (PieceKind::Rook, Color::Black) => {
            if fy == 7 && fx == 0 {
                cr.set(CastleSide::BlackQueen, false);
            } else if fy == 7 && fx == 7 {
                cr.set(CastleSide::BlackKing, false);
            }
        },
        _ => {},
    }
}

fn update_castling_rights_on_capture(cr: &mut CastlingRights, cx: i8, cy: i8)
    ensures
        forall|s: CastleSide|
            right(*final(cr), s) == (right(*old(cr), s) && !revoked_by_capture(cx as int, cy as int, s)),
{
    if cx == 0 && cy == 0 {
        cr.set(CastleSide::WhiteQueen, false);
    } else if cx == 7 && cy == 0 {
        cr.set(CastleSide::WhiteKing, false);
    } else if cx == 0 && cy == 7 {
        cr.set(CastleSide::BlackQueen, false);
    } else if cx == 7 && cy == 7 {
        cr.set(CastleSide::BlackKing, false);
    }
}

/// The rook's file before and after castling, and the king's destination file.
pub open spec fn castle_files(k: MoveKind) -> (int, int, int) {
    if k == MoveKind::CastleKing {
        (7, 5, 6)
    } else {
        (0, 3, 2)
    }
}

/// `s` is board `b` after castling move `m` of king `p` with rook `r`.
pub open spec fn castle_succ(b: Board, m: Move, p: Piece, s: Board) -> bool {
    let hy = m.from.y as int;
    let (rf, rt, kt) = castle_files(m.kind);
    let r = sq(b, rf, hy)->0;
    &&& forall|x: int, y: int|
        on_board(x, y) ==> #[trigger] sq(s, x, y) == (if x == rt && y == hy {
            Some(Piece { has_moved: true, ..r })
        } else if x == kt && y == hy {
            Some(moved_piece(p, m))
        } else if x == rf && y == hy {
            None
        } else if x == m.from.x && y == hy {
            None
        } else {
            sq(b, x, y)
        })
    &&& forall|side: CastleSide|
        right(s.castling, side) == (right(b.castling, side) && !(if p.color == Color::White {
            side == CastleSide::WhiteKing || side == CastleSide::WhiteQueen
        } else {
            side == CastleSide::BlackKing || side == CastleSide::BlackQueen
        }))
    &&& s.en_passant is None
    &&& s.to_move == opposite(p.color)
}

/// `s` is board `b` after the move `m` of `p` within the board.
pub open spec fn intra_succ(b: Board, m: Move, p: Piece, s: Board) -> bool {
    &&& forall|x: int, y: int|
        on_board(x, y) ==> #[trigger] sq(s, x, y) == (if m.kind == MoveKind::EnPassant && x
            == m.to.x && y == m.from.y {
            None
        } else if x == m.to.x && y == m.to.y {
            Some(moved_piece(p, m))
        } else if x == m.from.x && y == m.from.y {
            None
        } else {
            sq(b, x, y)
        })
    &&& s.en_passant == (if m.kind == MoveKind::DoublePush {
        Some((m.to.x, ((m.from.y + m.to.y) / 2) as i8))
    } else {
        None
    })
    &&& forall|side: CastleSide|
        right(s.castling, side) == (right(b.castling, side) && !revoked_by_move(
            p,
            m.from.x as int,
            m.from.y as int,
            side,
        ) && !revoked_by_capture(m.to.x as int, m.to.y as int, side))
    &&& s.to_move == opposite(p.color)
}

/// `s` is the source board `b` after piece `p` left (x, y) for another board.
pub open spec fn leave_succ(b: Board, m: Move, p: Piece, s: Board) -> bool {
    &&& forall|x: int, y: int|
        on_board(x, y) ==> #[trigger] sq(s, x, y) == (if x == m.from.x && y == m.from.y {
            None
        } else {
            sq(b, x, y)
        })
    &&& s.en_passant is None
    &&& forall|side: CastleSide|
        right(s.castling, side) == (right(b.castling, side) && !revoked_by_move(
            p,
            m.from.x as int,
            m.from.y as int,
            side,
        ))
    &&& s.to_move == opposite(p.color)
}

/// `s` is the destination board `b` after piece `p` arrived on (to.x, to.y).
pub open spec fn arrive_succ(b: Board, m: Move, p: Piece, s: Board) -> bool {
    &&& forall|x: int, y: int|
        on_board(x, y) ==> #[trigger] sq(s, x, y) == (if x == m.to.x && y == m.to.y {
            Some(moved_piece(p, m))
        } else {
            sq(b, x, y)
        })
    &&& s.en_passant is None
    &&& forall|side: CastleSide|
        right(s.castling, side) == (right(b.castling, side) && !revoked_by_capture(
            m.to.x as int,
            m.to.y as int,
            side,
        ))
    &&& s.to_move == opposite(p.color)
}

/// The source board of a move.
pub open spec fn src_board(mv: MultiverseView, m: Move) -> Board {
    board_at(mv, m.from.l as int, m.from.t as int)->0
}

/// The moving piece.
pub open spec fn mover_piece(mv: MultiverseView, m: Move) -> Piece {
    sq(src_board(mv, m), m.from.x as int, m.from.y as int)->0
}

pub open spec fn is_castle(m: Move) -> bool {
    m.kind == MoveKind::CastleKing || m.kind == MoveKind::CastleQueen
}

/// The destination board of a cross-board move: it may be the source timeline's new
/// board.
pub open spec fn dest_board(mv: MultiverseView, m: Move, left: Board) -> Option<Board> {
    let sl = m.from.l as int;
    if m.to.l == m.from.l && m.to.t == last_t(tl_at(mv, sl)) + 1 {
        Some(left)
    } else {
        board_at(mv, m.to.l as int, m.to.t as int)
    }
}

/// Whether the destination of a cross-board move is the last board of its timeline
/// once the source timeline has advanced.
pub open spec fn dest_latest(mv: MultiverseView, m: Move) -> bool {
    if m.to.l == m.from.l {
        m.to.t == last_t(tl_at(mv, m.from.l as int)) + 1
    } else {
        has_tl(mv, m.to.l as int) && m.to.t == last_t(tl_at(mv, m.to.l as int))
    }
}

/// The index a new timeline of `c` receives.
pub open spec fn next_index(mv: MultiverseView, c: Color) -> i32 {
    if c == Color::White {
        mv.next_white_l
    } else {
        mv.next_black_l
    }
}

/// The conditions under which a move can be applied: its source board and piece
/// exist, its squares are on the board, a castling move has its rook square
/// occupied, a cross-board move's destination board exists, and the integer
/// ranges (times, timeline indices, timeline count) leave room for the new boards.
pub open spec fn applicable(mv: MultiverseView, m: Move) -> bool {
    let sl = m.from.l as int;
    &&& board_at(mv, sl, m.from.t as int) is Some
    &&& on_board(m.from.x as int, m.from.y as int)
    &&& sq(src_board(mv, m), m.from.x as int, m.from.y as int) is Some
    &&& last_t(tl_at(mv, sl)) < i32::MAX
    &&& if is_castle(m) {
        sq(src_board(mv, m), castle_files(m.kind).0, m.from.y as int) is Some
    } else {
        &&& on_board(m.to.x as int, m.to.y as int)
        &&& cross_board(m) ==> {
            &&& dest_board(mv, m, src_board(mv, m)) is Some
            &&& dest_latest(mv, m) ==> last_t(tl_at(mv, m.to.l as int)) + 1 < i32::MAX
            &&& !dest_latest(mv, m) ==> {
                &&& m.mover == Color::White ==> mv.next_white_l < i32::MAX
                &&& m.mover == Color::Black ==> mv.next_black_l > i32::MIN
                &&& next_index(mv, m.mover) != i32::MIN
                &&& mv.timelines.dom().len() + 1 < 0x4000_0000
            }
        }
    }
}

/// The multiverse after a single move (the global turn unchanged).
pub open spec fn applied(mv: MultiverseView, m: Move, r: MultiverseView) -> bool {
    let sl = m.from.l;
    let b = src_board(mv, m);
    let p = mover_piece(mv, m);
    let old_tl = mv.timelines[sl];
    &&& r.global_to_move == mv.global_to_move
    &&& r.halfmove_clock == mv.halfmove_clock
    &&& r.fullmove_number == mv.fullmove_number
    &&& r.position_history == mv.position_history
    &&& if is_castle(m) || !cross_board(m) {
        &&& r.timelines.dom() == mv.timelines.dom()
        &&& forall|l: i32| l != sl && #[trigger] mv.timelines.contains_key(l) ==> r.timelines[l] == mv.timelines[l]
        &&& r.timelines[sl].t_start == old_tl.t_start
        &&& r.timelines[sl].creator == old_tl.creator
        &&& r.timelines[sl].boards.drop_last() == old_tl.boards
        &&& r.timelines[sl].boards.len() == old_tl.boards.len() + 1
        &&& if is_castle(m) {
            castle_succ(b, m, p, r.timelines[sl].boards.last())
        } else {
            intra_succ(b, m, p, r.timelines[sl].boards.last())
        }
        &&& r.next_white_l == mv.next_white_l
        &&& r.next_black_l == mv.next_black_l
    } else {
        let dl = m.to.l;
        if dest_latest(mv, m) {
            let left = r.timelines[sl].boards[old_tl.boards.len() as int];
            let dst = dest_board(mv, m, left)->0;
            &&& r.timelines[sl].t_start == old_tl.t_start
            &&& r.timelines[sl].creator == old_tl.creator
            &&& r.timelines[sl].boards.subrange(0, old_tl.boards.len() as int) == old_tl.boards
            &&& leave_succ(b, m, p, left)
            &&& r.next_white_l == mv.next_white_l
            &&& r.next_black_l == mv.next_black_l
            &&& r.timelines.dom() == mv.timelines.dom()
            &&& forall|l: i32| l != sl && l != dl && #[trigger] mv.timelines.contains_key(l) ==> r.timelines[l] == mv.timelines[l]
            &&& if dl == sl {
                &&& r.timelines[sl].boards.len() == old_tl.boards.len() + 2
                &&& arrive_succ(dst, m, p, r.timelines[sl].boards.last())
            } else {
                &&& r.timelines[sl].boards.len() == old_tl.boards.len() + 1
                &&& r.timelines[dl].t_start == mv.timelines[dl].t_start
                &&& r.timelines[dl].creator == mv.timelines[dl].creator
                &&& r.timelines[dl].boards.drop_last() == mv.timelines[dl].boards
                &&& r.timelines[dl].boards.len() == mv.timelines[dl].boards.len() + 1
                &&& arrive_succ(dst, m, p, r.timelines[dl].boards.last())
            }
        } else {
            let dst = board_at(mv, m.to.l as int, m.to.t as int)->0;
            let nl = next_index(mv, m.mover);
            &&& m.mover == Color::White ==> r.next_white_l == mv.next_white_l + 1
                && r.next_black_l == mv.next_black_l
            &&& m.mover == Color::Black ==> r.next_black_l == mv.next_black_l - 1
                && r.next_white_l == mv.next_white_l
            &&& r.timelines.dom() == mv.timelines.dom().insert(nl)
            &&& forall|l: i32| l != sl && l != nl && #[trigger] mv.timelines.contains_key(l) ==> r.timelines[l] == mv.timelines[l]
            &&& nl != sl ==> {
                &&& r.timelines[sl].t_start == old_tl.t_start
                &&& r.timelines[sl].creator == old_tl.creator
                &&& r.timelines[sl].boards.drop_last() == old_tl.boards
                &&& r.timelines[sl].boards.len() == old_tl.boards.len() + 1
                &&& leave_succ(b, m, p, r.timelines[sl].boards.last())
            }
            &&& r.timelines[nl].t_start == m.to.t + 1
            &&& r.timelines[nl].creator == Some(m.mover)
            &&& r.timelines[nl].boards.len() == 1
            &&& arrive_succ(dst, m, p, r.timelines[nl].boards[0])
        }
    }
}


/// No piece of color `c` and kind `k` stands on board `b`.
pub open spec fn board_clean(b: Board, c: Color, k: PieceKind) -> bool {
    forall|x: int, y: int|
        on_board(x, y) ==> (#[trigger] sq(b, x, y) matches Some(p) ==> !(p.color == c && p.kind == k))
}

proof fn lemma_clean_board_at(mv: MultiverseView, l: int, t: int, c: Color, k: PieceKind)
    requires
        kind_absent(mv, c, k),
        board_at(mv, l, t) is Some,
    ensures
        board_clean(board_at(mv, l, t)->0, c, k),
{
    let b = board_at(mv, l, t)->0;
    assert forall|x: int, y: int| on_board(x, y) implies (#[trigger] sq(b, x, y) matches Some(p) ==> !(p.color == c && p.kind == k)) by {
        assert(piece_at(mv, l, t, x, y) == sq(b, x, y));
    }
}

proof fn lemma_castle_clean(b: Board, m: Move, p: Piece, s: Board, c: Color, k: PieceKind)
    requires
        board_clean(b, c, k),
        castle_succ(b, m, p, s),
        p.color != c,
        on_board(castle_files(m.kind).0, m.from.y as int),
        sq(b, castle_files(m.kind).0, m.from.y as int) is Some,
    ensures
        board_clean(s, c, k),
{
    let r = sq(b, castle_files(m.kind).0, m.from.y as int)->0;
    assert(!(r.color == c && r.kind == k));
}

proof fn lemma_intra_clean(b: Board, m: Move, p: Piece, s: Board, c: Color, k: PieceKind)
    requires
        board_clean(b, c, k),
        intra_succ(b, m, p, s),
        p.color != c,
    ensures
        board_clean(s, c, k),
{
}

proof fn lemma_leave_clean(b: Board, m: Move, p: Piece, s: Board, c: Color, k: PieceKind)
    requires
        board_clean(b, c, k),
        leave_succ(b, m, p, s),
    ensures
        board_clean(s, c, k),
{
}

proof fn lemma_arrive_clean(b: Board, m: Move, p: Piece, s: Board, c: Color, k: PieceKind)
    requires
        board_clean(b, c, k),
        arrive_succ(b, m, p, s),
        p.color != c,
    ensures
        board_clean(s, c, k),
{
}

/// A move of a piece not of color `c` brings no piece of color `c` and kind `k`
/// into being: the pieces of `c` only move about or disappear.
pub proof fn lemma_move_keeps_absent(mv: MultiverseView, m: Move, r: MultiverseView, c: Color, k: PieceKind)
    requires
        mv_wf(mv),
        applicable(mv, m),
        applied(mv, m, r),
        kind_absent(mv, c, k),
        mover_piece(mv, m).color != c,
    ensures
        kind_absent(r, c, k),
{
    let sl = m.from.l;
    let b = src_board(mv, m);
    let p = mover_piece(mv, m);
    let old_tl = mv.timelines[sl];
    lemma_clean_board_at(mv, sl as int, m.from.t as int, c, k);
    assert forall|l: int, t: int, x: int, y: int|
        #[trigger] piece_at(r, l, t, x, y) is Some implies !(piece_at(r, l, t, x, y)->0.color == c
            && piece_at(r, l, t, x, y)->0.kind == k) by {
        let li = l as i32;
        let bb = board_at(r, l, t)->0;
        assert(piece_at(r, l, t, x, y) == sq(bb, x, y));
        let rtl = r.timelines[li];
        let q = t - rtl.t_start;
        assert(bb == rtl.boards[q]);
        if is_castle(m) || !cross_board(m) {
            if li == sl {
                if q < old_tl.boards.len() {
                    assert(rtl.boards[q] == rtl.boards.drop_last()[q]);
                    lemma_clean_board_at(mv, l, t, c, k);
                } else if is_castle(m) {
                    lemma_castle_clean(b, m, p, bb, c, k);
                } else {
                    lemma_intra_clean(b, m, p, bb, c, k);
                }
            } else {
                lemma_clean_board_at(mv, l, t, c, k);
            }
        } else {
            let dl = m.to.l;
            if dest_latest(mv, m) {
                let left = r.timelines[sl].boards[old_tl.boards.len() as int];
                let dst = dest_board(mv, m, left)->0;
                lemma_leave_clean(b, m, p, left, c, k);
                if dl == sl {
                    assert(dst == left);
                } else {
                    lemma_clean_board_at(mv, m.to.l as int, m.to.t as int, c, k);
                }
                if li == sl {
                    if q < old_tl.boards.len() {
                        assert(rtl.boards[q] == rtl.boards.subrange(0, old_tl.boards.len() as int)[q]);
                        lemma_clean_board_at(mv, l, t, c, k);
                    } else if q == old_tl.boards.len() {
                    } else {
                        lemma_arrive_clean(dst, m, p, bb, c, k);
                    }
                } else if li == dl {
                    if q < mv.timelines[dl].boards.len() {
                        assert(rtl.boards[q] == rtl.boards.drop_last()[q]);
                        lemma_clean_board_at(mv, l, t, c, k);
                    } else {
                        lemma_arrive_clean(dst, m, p, bb, c, k);
                    }
                } else {
                    lemma_clean_board_at(mv, l, t, c, k);
                }
            } else {
                let dst = board_at(mv, m.to.l as int, m.to.t as int)->0;
                let nl = next_index(mv, m.mover);
                lemma_clean_board_at(mv, m.to.l as int, m.to.t as int, c, k);
                if li == nl {
                    lemma_arrive_clean(dst, m, p, bb, c, k);
                } else if li == sl {
                    if q < old_tl.boards.len() {
                        assert(rtl.boards[q] == rtl.boards.drop_last()[q]);
                        lemma_clean_board_at(mv, l, t, c, k);
                    } else {
                        lemma_leave_clean(b, m, p, bb, c, k);
                    }
                } else {
                    lemma_clean_board_at(mv, l, t, c, k);
                }
            }
        }
    }
}

/// A move leaves every board that existed as it was (the past only grows), and keeps
/// the timeline indices still to be handed out free.
pub proof fn lemma_move_keeps_past(mv: MultiverseView, m: Move, r: MultiverseView)
    requires
        mv_wf(mv),
        applicable(mv, m),
        applied(mv, m, r),
        indices_fresh(mv),
    ensures
        indices_fresh(r),
        forall|l: int, t: int| #[trigger] board_at(mv, l, t) is Some ==> board_at(r, l, t) == board_at(mv, l, t),
{
    let sl = m.from.l;
    assert(mv.timelines.contains_key(sl));
    let old_tl = mv.timelines[sl];
    assert forall|l: int, t: int| #[trigger] board_at(mv, l, t) is Some implies board_at(r, l, t) == board_at(mv, l, t) by {
        let li = l as i32;
        assert(mv.timelines.contains_key(li));
        if li == sl {
            let nb = r.timelines[sl].boards;
            assert(tl_board(old_tl, t) is Some);
            let k = t - old_tl.t_start;
            assert(0 <= k < old_tl.boards.len());
            if is_castle(m) || !cross_board(m) {
                assert(nb[k] == nb.drop_last()[k]);
            } else if dest_latest(mv, m) {
                assert(nb[k] == nb.subrange(0, old_tl.boards.len() as int)[k]);
            } else {
                assert(nb[k] == nb.drop_last()[k]);
            }
        } else if !(is_castle(m) || !cross_board(m)) && li == m.to.l && dest_latest(mv, m) {
            let ob = mv.timelines[li].boards;
            let nb = r.timelines[li].boards;
            let k = t - mv.timelines[li].t_start;
            assert(nb[k] == nb.drop_last()[k]);
        }
    }
}

/// The multiverse after move `m`, the global turn unchanged.
pub open spec fn step(mv: MultiverseView, m: Move) -> MultiverseView {
    choose|r: MultiverseView| applied(mv, m, r)
}

proof fn lemma_castle_unique(b: Board, m: Move, p: Piece, s1: Board, s2: Board)
    requires
        castle_succ(b, m, p, s1),
        castle_succ(b, m, p, s2),
    ensures
        s1 == s2,
{
    assert forall|x: int, y: int| on_board(x, y) implies #[trigger] sq(s1, x, y) == sq(s2, x, y) by {
        assert(sq(s1, x, y) == sq(s2, x, y));
    }
    lemma_board_ext(s1, s2);
}

proof fn lemma_intra_unique(b: Board, m: Move, p: Piece, s1: Board, s2: Board)
    requires
        intra_succ(b, m, p, s1),
        intra_succ(b, m, p, s2),
    ensures
        s1 == s2,
{
    assert forall|x: int, y: int| on_board(x, y) implies #[trigger] sq(s1, x, y) == sq(s2, x, y) by {
        assert(sq(s1, x, y) == sq(s2, x, y));
    }
    lemma_board_ext(s1, s2);
}

proof fn lemma_leave_unique(b: Board, m: Move, p: Piece, s1: Board, s2: Board)
    requires
        leave_succ(b, m, p, s1),
        leave_succ(b, m, p, s2),
    ensures
        s1 == s2,
{
    assert forall|x: int, y: int| on_board(x, y) implies #[trigger] sq(s1, x, y) == sq(s2, x, y) by {
        assert(sq(s1, x, y) == sq(s2, x, y));
    }
    lemma_board_ext(s1, s2);
}

proof fn lemma_arrive_unique(b: Board, m: Move, p: Piece, s1: Board, s2: Board)
    requires
        arrive_succ(b, m, p, s1),
        arrive_succ(b, m, p, s2),
    ensures
        s1 == s2,
{
    assert forall|x: int, y: int| on_board(x, y) implies #[trigger] sq(s1, x, y) == sq(s2, x, y) by {
        assert(sq(s1, x, y) == sq(s2, x, y));
    }
    lemma_board_ext(s1, s2);
}

/// Two board sequences that extend the same prefix by the same last board are equal.
proof fn lemma_seq_push_eq(a: Seq<Board>, b: Seq<Board>, n: int)
    requires
        a.len() == b.len(),
        0 <= n <= a.len(),
        a.subrange(0, n) == b.subrange(0, n),
        forall|i: int| n <= i < a.len() ==> a[i] == b[i],
    ensures
        a == b,
{
    assert forall|i: int| 0 <= i < a.len() implies a[i] == b[i] by {
        if i < n {
            assert(a[i] == a.subrange(0, n)[i]);
            assert(b[i] == b.subrange(0, n)[i]);
        }
    }
    assert(a =~= b);
}

/// A move has a single outcome.
pub proof fn lemma_applied_unique(mv: MultiverseView, m: Move, r1: MultiverseView, r2: MultiverseView)
    requires
        applied(mv, m, r1),
        applied(mv, m, r2),
    ensures
        r1 == r2,
{
    let sl = m.from.l;
    let b = src_board(mv, m);
    let p = mover_piece(mv, m);
    let old_tl = mv.timelines[sl];
    let n = old_tl.boards.len() as int;
    if is_castle(m) || !cross_board(m) {
        let s1 = r1.timelines[sl].boards.last();
        let s2 = r2.timelines[sl].boards.last();
        if is_castle(m) {
            lemma_castle_unique(b, m, p, s1, s2);
        } else {
            lemma_intra_unique(b, m, p, s1, s2);
        }
        assert(r1.timelines[sl].boards.subrange(0, n) == r1.timelines[sl].boards.drop_last());
        assert(r2.timelines[sl].boards.subrange(0, n) == r2.timelines[sl].boards.drop_last());
        lemma_seq_push_eq(r1.timelines[sl].boards, r2.timelines[sl].boards, n);
        assert(r1.timelines[sl] =~= r2.timelines[sl]);
        assert(r1.timelines =~= r2.timelines);
    } else {
        let dl = m.to.l;
        if dest_latest(mv, m) {
            let left1 = r1.timelines[sl].boards[n];
            let left2 = r2.timelines[sl].boards[n];
            lemma_leave_unique(b, m, p, left1, left2);
            let dst = dest_board(mv, m, left1)->0;
            if dl == sl {
                lemma_arrive_unique(dst, m, p, r1.timelines[sl].boards.last(), r2.timelines[sl].boards.last());
                lemma_seq_push_eq(r1.timelines[sl].boards, r2.timelines[sl].boards, n);
                assert(r1.timelines[sl] =~= r2.timelines[sl]);
            } else {
                lemma_seq_push_eq(r1.timelines[sl].boards, r2.timelines[sl].boards, n);
                assert(r1.timelines[sl] =~= r2.timelines[sl]);
                let dn = mv.timelines[dl].boards.len() as int;
                lemma_arrive_unique(dst, m, p, r1.timelines[dl].boards.last(), r2.timelines[dl].boards.last());
                assert(r1.timelines[dl].boards.subrange(0, dn) == r1.timelines[dl].boards.drop_last());
                assert(r2.timelines[dl].boards.subrange(0, dn) == r2.timelines[dl].boards.drop_last());
                lemma_seq_push_eq(r1.timelines[dl].boards, r2.timelines[dl].boards, dn);
                assert(r1.timelines[dl] =~= r2.timelines[dl]);
            }
            assert(r1.timelines =~= r2.timelines);
        } else {
            let dst = board_at(mv, m.to.l as int, m.to.t as int)->0;
            let nl = next_index(mv, m.mover);
            if nl != sl {
                lemma_leave_unique(b, m, p, r1.timelines[sl].boards.last(), r2.timelines[sl].boards.last());
                assert(r1.timelines[sl].boards.subrange(0, n) == r1.timelines[sl].boards.drop_last());
                assert(r2.timelines[sl].boards.subrange(0, n) == r2.timelines[sl].boards.drop_last());
                lemma_seq_push_eq(r1.timelines[sl].boards, r2.timelines[sl].boards, n);
                assert(r1.timelines[sl] =~= r2.timelines[sl]);
            }
            lemma_arrive_unique(dst, m, p, r1.timelines[nl].boards[0], r2.timelines[nl].boards[0]);
            assert(r1.timelines[nl].boards =~= r2.timelines[nl].boards);
            assert(r1.timelines[nl] =~= r2.timelines[nl]);
            assert(r1.timelines =~= r2.timelines);
        }
    }
    assert(r1 =~= r2);
}

/// Applies a single move WITHOUT flipping the global turn: the source timeline
/// advances; a cross-board move also advances the destination timeline when it lands
/// on that timeline's latest board, and branches a new timeline otherwise.
pub fn apply_move_partial(mv: &Multiverse, m: Move) -> (r: Multiverse)
    requires
        mv_wf(mv@),
        applicable(mv@, m),
    ensures
        applied(mv@, m, r@),
        r@ == step(mv@, m),
        mv_wf(r@),
        r@.global_to_move == mv@.global_to_move,
        indices_fresh(mv@) ==> indices_fresh(r@),
        indices_fresh(mv@) ==> forall|l: int, t: int| #[trigger] board_at(mv@, l, t) is Some ==> board_at(r@, l, t) == board_at(mv@, l, t),
{
    let r = apply_move_core(mv, m);
    proof {
        lemma_applied_unique(mv@, m, r@, step(mv@, m));
        if indices_fresh(mv@) {
            lemma_move_keeps_past(mv@, m, r@);
        }
    }
    r
}

fn apply_move_core(mv: &Multiverse, m: Move) -> (r: Multiverse)
    requires
        mv_wf(mv@),
        applicable(mv@, m),
    ensures
        applied(mv@, m, r@),
        mv_wf(r@),
{
    let mut out = mv.copy();
    let ghost sl = m.from.l;
    proof {
        assert(mv@.timelines.contains_key(sl));
    }
    let src_board: Board = *out.board(m.from.board()).unwrap();
    let moving_piece = src_board.get(m.from.x, m.from.y).unwrap();
    let mut piece_moved = moving_piece;
    piece_moved.has_moved = true;
    if let Some(promo) = m.promotion {
        piece_moved.kind = promo;
    }
    match m.kind {
        MoveKind::CastleKing | MoveKind::CastleQueen => {
            let mut succ = src_board;
            let home_y = m.from.y;
            let (rook_from_x, rook_to_x, king_to_x): (i8, i8, i8) = if m.kind == MoveKind::CastleKing {
                (7, 5, 6)
            } else {
                (0, 3, 2)
            };
            let rook = succ.get(rook_from_x, home_y).unwrap();
            let mut moved_rook = rook;
            moved_rook.has_moved = true;
            succ.set(m.from.x, home_y, None);
            let ghost b1 = succ;
            succ.set(rook_from_x, home_y, None);
            let ghost b2 = succ;
            succ.set(king_to_x, home_y, Some(piece_moved));
            let ghost b3 = succ;
            succ.set(rook_to_x, home_y, Some(moved_rook));
            let ghost b4 = succ;
            proof {
                assert forall|x: int, y: int| on_board(x, y) implies #[trigger] sq(succ, x, y) == (if x == rook_to_x && y == home_y {
                    Some(moved_rook)
                } else if x == king_to_x && y == home_y {
                    Some(piece_moved)
                } else if x == rook_from_x && y == home_y {
                    None
                } else if x == m.from.x && y == home_y {
                    None
                } else {
                    sq(src_board, x, y)
                }) by {
                    assert(sq(b1, x, y) == (if x == m.from.x && y == home_y { None } else { sq(src_board, x, y) }));
                    assert(sq(b2, x, y) == (if x == rook_from_x && y == home_y { None } else { sq(b1, x, y) }));
                    assert(sq(b3, x, y) == (if x == king_to_x && y == home_y { Some(piece_moved) } else { sq(b2, x, y) }));
                }
            }
            let (ks, qs) = match moving_piece.color {
                Color::White => (CastleSide::WhiteKing, CastleSide::WhiteQueen),
                Color::Black => (CastleSide::BlackKing, CastleSide::BlackQueen),
            };
            succ.castling.set(ks, false);
            succ.castling.set(qs, false);
            succ.en_passant = None;
            succ.to_move = moving_piece.color.flip();
            out.push_onto(m.from.l, succ);
            proof {
                assert(out@.timelines.dom() =~= mv@.timelines.dom());
                assert(out@.timelines[sl].boards.drop_last() =~= mv@.timelines[sl].boards);
                assert(forall|l: i32| #[trigger] out@.timelines.contains_key(l) ==> mv@.timelines.contains_key(l));
                assert(out@.timelines[sl].boards.last() == succ);
                assert(src_board == self::src_board(mv@, m));
                assert(moving_piece == mover_piece(mv@, m));
                assert(is_castle(m));
                assert(piece_moved == moved_piece(moving_piece, m));
                assert(forall|x: int, y: int| on_board(x, y) ==> #[trigger] sq(succ, x, y) == sq(b4, x, y));
                assert(castle_files(m.kind) == (rook_from_x as int, rook_to_x as int, king_to_x as int));
                assert(rook == sq(src_board, rook_from_x as int, home_y as int)->0);
                assert(moved_rook == Piece { has_moved: true, ..rook });
                assert(castle_succ(src_board, m, moving_piece, succ));
            }
            return out;
        },
        _ => {},
    }
    if !m.is_cross_board() {
        let mut succ = src_board;
        succ.set(m.from.x, m.from.y, None);
        let ghost b1 = succ;
        succ.set(m.to.x, m.to.y, Some(piece_moved));
        let ghost b2 = succ;
        if m.kind == MoveKind::EnPassant {
            succ.set(m.to.x, m.from.y, None);
        }
        let ghost b3 = succ;
        proof {
            assert forall|x: int, y: int| on_board(x, y) implies #[trigger] sq(succ, x, y) == (if m.kind
                == MoveKind::EnPassant && x == m.to.x && y == m.from.y {
                None
            } else if x == m.to.x && y == m.to.y {
                Some(moved_piece(moving_piece, m))
            } else if x == m.from.x && y == m.from.y {
                None
            } else {
                sq(src_board, x, y)
            }) by {
                assert(sq(b1, x, y) == (if x == m.from.x && y == m.from.y { None } else { sq(src_board, x, y) }));
                assert(sq(b2, x, y) == (if x == m.to.x && y == m.to.y { Some(piece_moved) } else { sq(b1, x, y) }));
            }
        }
        succ.en_passant = if m.kind == MoveKind::DoublePush {
            Some((m.to.x, (m.from.y + m.to.y) / 2))
        } else {
            None
        };
        update_castling_rights(&mut succ.castling, m.from.x, m.from.y, moving_piece);
        update_castling_rights_on_capture(&mut succ.castling, m.to.x, m.to.y);
        succ.to_move = moving_piece.color.flip();
        out.push_onto(m.from.l, succ);
        proof {
            assert(out@.timelines.dom() =~= mv@.timelines.dom());
            assert(out@.timelines[sl].boards.drop_last() =~= mv@.timelines[sl].boards);
            assert(out@.timelines[sl].boards.last() == succ);
            assert(src_board == self::src_board(mv@, m));
            assert(moving_piece == mover_piece(mv@, m));
            assert(piece_moved == moved_piece(moving_piece, m));
            assert(forall|x: int, y: int| on_board(x, y) ==> #[trigger] sq(succ, x, y) == sq(b3, x, y));
            assert(succ.en_passant == (if m.kind == MoveKind::DoublePush {
                Some((m.to.x, ((m.from.y + m.to.y) / 2) as i8))
            } else {
                None
            }));
            assert(succ.to_move == opposite(moving_piece.color));
            assert(intra_succ(src_board, m, moving_piece, succ));
        }
        out
    } else {
        let mut src_succ = src_board;
        src_succ.set(m.from.x, m.from.y, None);
        let ghost sb1 = src_succ;
        src_succ.en_passant = None;
        update_castling_rights(&mut src_succ.castling, m.from.x, m.from.y, moving_piece);
        src_succ.to_move = moving_piece.color.flip();
        proof {
            assert(forall|x: int, y: int| on_board(x, y) ==> #[trigger] sq(src_succ, x, y) == sq(sb1, x, y));
            assert(leave_succ(src_board, m, moving_piece, src_succ));
        }
        out.push_onto(m.from.l, src_succ);
        let ghost mid = out;
        proof {
            assert(out@.timelines[sl].boards.drop_last() =~= mv@.timelines[sl].boards);
            assert(mv_wf(out@));
        }
        let dst_board: Board = *out.board(m.to.board()).unwrap();
        let mut dst_succ = dst_board;
        dst_succ.set(m.to.x, m.to.y, Some(piece_moved));
        let ghost db1 = dst_succ;
        dst_succ.en_passant = None;
        update_castling_rights_on_capture(&mut dst_succ.castling, m.to.x, m.to.y);
        dst_succ.to_move = moving_piece.color.flip();
        proof {
            assert(forall|x: int, y: int| on_board(x, y) ==> #[trigger] sq(dst_succ, x, y) == sq(db1, x, y));
            assert(piece_moved == moved_piece(moving_piece, m));
            assert(arrive_succ(dst_board, m, moving_piece, dst_succ));
        }
        let dst_is_latest = out.is_latest_on_timeline(m.to.board());
        if dst_is_latest {
            out.push_onto(m.to.l, dst_succ);
            proof {
                assert(out@.timelines.dom() =~= mv@.timelines.dom());
                if m.to.l == m.from.l {
                    assert(out@.timelines[sl].boards.subrange(0, mv@.timelines[sl].boards.len() as int)
                        =~= mv@.timelines[sl].boards);
                } else {
                    assert(out@.timelines[m.to.l].boards.drop_last() =~= mv@.timelines[m.to.l].boards);
                    assert(out@.timelines[sl].boards.subrange(0, mv@.timelines[sl].boards.len() as int)
                        =~= mv@.timelines[sl].boards);
                }
            }
        } else {
            let new_l = out.new_timeline_index(m.mover);
            let mut boards: Vec<Board> = Vec::new();
            boards.push(dst_succ);
            out.put_timeline(new_l, Timeline { t_start: m.to.t + 1, boards: Arc::new(boards), creator: Some(m.mover) });
            proof {
                assert(out@.timelines.dom() =~= mv@.timelines.dom().insert(new_l));
                assert(mv@.timelines.dom().insert(new_l).len() <= mv@.timelines.dom().len() + 1);
            }
        }
        out
    }
}

/// Applies a move and flips the global turn.
pub fn apply_move(mv: &Multiverse, m: Move) -> (r: Multiverse)
    requires
        mv_wf(mv@),
        applicable(mv@, m),
    ensures
        r@ == (MultiverseView { global_to_move: opposite(mv@.global_to_move), ..step(mv@, m) }),
        mv_wf(r@),
{
    let mut out = apply_move_partial(mv, m);
    out.global_to_move = out.global_to_move.flip();
    proof {
        assert(out@ =~= (MultiverseView { global_to_move: opposite(mv@.global_to_move), ..step(mv@, m) }));
    }
    out
}

/// The multiverse after the moves of `plan`, one after another.
pub open spec fn steps(mv: MultiverseView, plan: Seq<Move>) -> MultiverseView
    decreases plan.len(),
{
    if plan.len() == 0 {
        mv
    } else {
        steps(step(mv, plan[0]), plan.drop_first())
    }
}

/// Every move of `plan` can be applied to the multiverse its predecessors left.
pub open spec fn plan_applicable(mv: MultiverseView, plan: Seq<Move>) -> bool
    decreases plan.len(),
{
    plan.len() == 0 || (applicable(mv, plan[0]) && plan_applicable(step(mv, plan[0]), plan.drop_first()))
}

/// The piece that `m` moves is a pawn.
pub open spec fn pawn_mover(mv: MultiverseView, m: Move) -> bool {
    piece_at(mv, m.from.l as int, m.from.t as int, m.from.x as int, m.from.y as int) matches Some(p)
        && p.kind == PieceKind::Pawn
}

/// Some move of `plan` captures or moves a pawn.
pub open spec fn progress(mv: MultiverseView, plan: Seq<Move>) -> bool
    decreases plan.len(),
{
    plan.len() > 0 && (plan[0].capture || pawn_mover(mv, plan[0]) || progress(
        step(mv, plan[0]),
        plan.drop_first(),
    ))
}

/// A turn with a capture has made progress.
proof fn lemma_capture_progress(mv: MultiverseView, plan: Seq<Move>, i: int)
    requires
        0 <= i < plan.len(),
        plan[i].capture,
    ensures
        progress(mv, plan),
    decreases i,
{
    if i > 0 {
        assert(plan.drop_first()[i - 1] == plan[i]);
        lemma_capture_progress(step(mv, plan[0]), plan.drop_first(), i - 1);
    }
}

proof fn lemma_steps_take_first(mv: MultiverseView, plan: Seq<Move>, i: int)
    requires
        1 <= i <= plan.len(),
    ensures
        steps(mv, plan.take(i)) == steps(step(mv, plan[0]), plan.drop_first().take(i - 1)),
{
    assert(plan.take(i)[0] == plan[0]);
    assert(plan.take(i).drop_first() =~= plan.drop_first().take(i - 1));
}

proof fn lemma_pawn_progress(mv: MultiverseView, plan: Seq<Move>, i: int)
    requires
        0 <= i < plan.len(),
        pawn_mover(steps(mv, plan.take(i)), plan[i]),
    ensures
        progress(mv, plan),
    decreases i,
{
    if i == 0 {
        assert(plan.take(0) =~= Seq::<Move>::empty());
    } else {
        lemma_steps_take_first(mv, plan, i);
        assert(plan.drop_first()[i - 1] == plan[i]);
        lemma_pawn_progress(step(mv, plan[0]), plan.drop_first(), i - 1);
    }
}

/// A pawn move restarts the fifty-move count: after a turn in which some move moves a
/// pawn (a pawn stands on its source square when it is made), the half-move clock is 0.
pub proof fn lemma_pawn_move_restarts_halfmove_clock(mv: MultiverseView, plan: Seq<Move>, i: int)
    requires
        0 <= i < plan.len(),
        piece_at(
            steps(mv, plan.take(i)),
            plan[i].from.l as int,
            plan[i].from.t as int,
            plan[i].from.x as int,
            plan[i].from.y as int,
        ) matches Some(p) && p.kind == PieceKind::Pawn,
    ensures
        turn_result(mv, plan).halfmove_clock == 0,
{
    lemma_pawn_progress(mv, plan, i);
}

/// A capture restarts the fifty-move count: after a turn in which some move captures,
/// the half-move clock is 0.
pub proof fn lemma_capture_restarts_halfmove_clock(mv: MultiverseView, plan: Seq<Move>, i: int)
    requires
        0 <= i < plan.len(),
        plan[i].capture,
    ensures
        turn_result(mv, plan).halfmove_clock == 0,
{
    lemma_capture_progress(mv, plan, i);
}

/// The multiverse after a whole turn: the moves in order, then the side to move
/// flips; the half-move clock restarts after a capture or pawn move and otherwise
/// counts up; the full-move number counts up after Black's turn (both saturating).
pub open spec fn turn_result(mv: MultiverseView, plan: Seq<Move>) -> MultiverseView {
    let s = steps(mv, plan);
    MultiverseView {
        global_to_move: opposite(s.global_to_move),
        halfmove_clock: if progress(mv, plan) {
            0
        } else {
            s.halfmove_clock.saturating_add(1)
        },
        fullmove_number: if s.global_to_move == Color::Black {
            s.fullmove_number.saturating_add(1)
        } else {
            s.fullmove_number
        },
        ..s
    }
}

/// Applies a whole turn, then flips the global turn and updates the move counters.
/// The position history is left as it is.
pub fn apply_turn(mv: &Multiverse, plan: &TurnPlan) -> (r: Multiverse)
    requires
        mv_wf(mv@),
        plan_applicable(mv@, plan@),
    ensures
        r@ == turn_result(mv@, plan@),
        mv_wf(r@),
        r@.global_to_move == opposite(mv@.global_to_move),
        r@.position_history == mv@.position_history,
        r@.halfmove_clock == (if progress(mv@, plan@) {
            0
        } else {
            mv@.halfmove_clock.saturating_add(1)
        }),
        r@.fullmove_number == (if mv@.global_to_move == Color::Black {
            mv@.fullmove_number.saturating_add(1)
        } else {
            mv@.fullmove_number
        }),
        indices_fresh(mv@) ==> indices_fresh(r@),
        indices_fresh(mv@) ==> forall|l: int, t: int| #[trigger] board_at(mv@, l, t) is Some ==> board_at(r@, l, t) == board_at(mv@, l, t),
{
    let mut cur = mv.copy();
    let mut any_progress = false;
    let mut i: usize = 0;
    proof {
        assert(plan@.skip(0) =~= plan@);
    }
    while i < plan.len()
        invariant
            i <= plan@.len(),
            mv_wf(cur@),
            plan_applicable(cur@, plan@.skip(i as int)),
            steps(cur@, plan@.skip(i as int)) == steps(mv@, plan@),
            progress(mv@, plan@) == (any_progress || progress(cur@, plan@.skip(i as int))),
            cur@.global_to_move == mv@.global_to_move,
            cur@.position_history == mv@.position_history,
            cur@.halfmove_clock == mv@.halfmove_clock,
            cur@.fullmove_number == mv@.fullmove_number,
            indices_fresh(mv@) ==> indices_fresh(cur@),
            indices_fresh(mv@) ==> forall|l: int, t: int| #[trigger] board_at(mv@, l, t) is Some ==> board_at(cur@, l, t) == board_at(mv@, l, t),
        decreases plan@.len() - i,
    {
        let m = plan[i];
        proof {
            assert(plan@.skip(i as int)[0] == m);
            assert(plan@.skip(i as int).drop_first() =~= plan@.skip(i + 1));
        }
        let is_pawn = match cur.board(m.from.board()) {
            Some(b) => match b.get(m.from.x, m.from.y) {
                Some(p) => p.kind == PieceKind::Pawn,
                None => false,
            },
            None => false,
        };
        if m.capture || is_pawn {
            any_progress = true;
        }
        cur = apply_move_partial(&cur, m);
        i = i + 1;
    }
    proof {
        assert(plan@.skip(plan@.len() as int) =~= Seq::<Move>::empty());
    }
    let prev_side = cur.global_to_move;
    cur.global_to_move = cur.global_to_move.flip();
    if any_progress {
        cur.halfmove_clock = 0;
    } else {
        cur.halfmove_clock = cur.halfmove_clock.saturating_add(1);
    }
    if prev_side == Color::Black {
        cur.fullmove_number = cur.fullmove_number.saturating_add(1);
    }
    proof {
        assert(cur@ =~= turn_result(mv@, plan@));
    }
    cur
}

/// A turn as `apply_turn` plays it, with the hash of the resulting position appended
/// to the position history (for repetition detection in real play).
pub fn apply_turn_with_history(mv: &Multiverse, plan: &TurnPlan) -> (r: Multiverse)
    requires
        mv_wf(mv@),
        plan_applicable(mv@, plan@),
    ensures
        r@ == (MultiverseView {
            position_history: turn_result(mv@, plan@).position_history.push(
                position_hash(turn_result(mv@, plan@)),
            ),
            ..turn_result(mv@, plan@)
        }),
        mv_wf(r@),
{
    let mut cur = apply_turn(mv, plan);
    let h = zobrist(&cur);
    cur.position_history.push(h);
    proof {
        crate::multiverse::lemma_view_timelines(cur);
    }
    cur
}

/// Whether `m` can be applied to `mv` (see `applicable`).
pub(crate) fn is_applicable(mv: &Multiverse, m: Move) -> (r: bool)
    requires
        mv_wf(mv@),
    ensures
        r == applicable(mv@, m),
{
    proof {
        crate::multiverse::lemma_view_timelines(*mv);
    }
    let src = match mv.board(m.from.board()) {
        Some(b) => *b,
        None => {
            return false;
        },
    };
    if !in_bounds(m.from.x, m.from.y) {
        return false;
    }
    if src.get(m.from.x, m.from.y).is_none() {
        return false;
    }
    let stl = mv.timelines.get(&m.from.l).unwrap();
    let st = stl.latest_t();
    if st == i32::MAX {
        return false;
    }
    if m.kind == MoveKind::CastleKing || m.kind == MoveKind::CastleQueen {
        let rf: i8 = if m.kind == MoveKind::CastleKing {
            7
        } else {
            0
        };
        return src.get(rf, m.from.y).is_some();
    }
    if !in_bounds(m.to.x, m.to.y) {
        return false;
    }
    if !m.is_cross_board() {
        return true;
    }
    let dlatest: bool;
    let dlast: i64;
    let dest_exists: bool;
    if m.to.l == m.from.l {
        dlatest = m.to.t as i64 == st as i64 + 1;
        dlast = st as i64;
        dest_exists = dlatest || mv.board(m.to.board()).is_some();
    } else {
        match mv.timelines.get(&m.to.l) {
            Some(dtl) => {
                let dt = dtl.latest_t();
                dlatest = m.to.t == dt;
                dlast = dt as i64;
            },
            None => {
                dlatest = false;
                dlast = 0;
            },
        }
        dest_exists = mv.board(m.to.board()).is_some();
    }
    if !dest_exists {
        return false;
    }
    if dlatest {
        dlast + 1 < i32::MAX as i64
    } else {
        let room = match m.mover {
            Color::White => mv.next_white_l < i32::MAX && mv.next_white_l != i32::MIN,
            Color::Black => mv.next_black_l > i32::MIN,
        };
        room && mv.timelines.len() < 0x3FFF_FFFF
    }
}

} // verus!
