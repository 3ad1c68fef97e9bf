//! Position hashing: Zobrist-style XOR of keys derived on demand with splitmix64,
//! since timeline and time indices are unbounded.

use vstd::prelude::*;

use crate::board::{sq, Board};
use crate::multiverse::{
    active, keys_seq, last_t, latest_board, lemma_increasing_unique, lemma_keys_seq_props, mv_wf,
    Multiverse, MultiverseView,
};
use crate::types::{Color, PieceKind};

verus! {

/// The splitmix64 finaliser.
pub open spec fn splitmix(x: u64) -> u64 {
    let x1 = x.wrapping_add(0x9E3779B97F4A7C15);
    let x2 = (x1 ^ (x1 >> 30u64)).wrapping_mul(0xBF58476D1CE4E5B9);
    let x3 = (x2 ^ (x2 >> 27u64)).wrapping_mul(0x94D049BB133111EB);
    x3 ^ (x3 >> 31u64)
}

/// A key derived from a tag and four integers.
pub open spec fn mix_key(tag: u64, a: i64, b: i64, c: i64, d: i64) -> u64 {
    splitmix(
        tag ^ (a as u64).wrapping_mul(0x9E3779B97F4A7C15) ^ (b as u64).wrapping_mul(
            0xC6BC279692B5C323,
        ) ^ (c as u64).wrapping_mul(0xD6E8FEB86659FD93) ^ (d as u64).wrapping_mul(
            0xA5CB9243E6E0B9F1,
        ),
    )
}

/// The number of a color: White 0, Black 1.
pub open spec fn color_code(c: Color) -> u64 {
    match c {
        Color::White => 0,
        Color::Black => 1,
    }
}

/// The number of a piece kind, in declaration order.
pub open spec fn kind_code(k: PieceKind) -> u64 {
    match k {
        PieceKind::Pawn => 0,
        PieceKind::Knight => 1,
        PieceKind::Bishop => 2,
        PieceKind::Rook => 3,
        PieceKind::Queen => 4,
        PieceKind::King => 5,
        PieceKind::Unicorn => 6,
        PieceKind::Dragon => 7,
        PieceKind::Princess => 8,
        PieceKind::Brawn => 9,
    }
}

pub open spec fn piece_key_value(l: i32, t: i32, x: i8, y: i8, c: Color, k: PieceKind) -> u64 {
    mix_key(
        0x5050_5050_5050_5050u64 ^ (color_code(c) << 48u64) ^ (kind_code(k) << 56u64),
        l as i64,
        t as i64,
        x as i64,
        y as i64,
    )
}

pub open spec fn head_key_value(l: i32, t: i32, to_move: Color) -> u64 {
    mix_key(0xABCD_1234_5678_9ABCu64 ^ (color_code(to_move) << 60u64), l as i64, t as i64, 0, 0)
}

/// Keys of the pieces on rank `y`, files `0..x`.
pub open spec fn rank_hash(l: i32, t: i32, b: Board, y: int, x: int) -> u64
    decreases x,
{
    if x <= 0 {
        0
    } else {
        rank_hash(l, t, b, y, x - 1) ^ match sq(b, x - 1, y) {
            Some(p) => piece_key_value(l, t, (x - 1) as i8, y as i8, p.color, p.kind),
            None => 0u64,
        }
    }
}

/// Keys of the pieces on ranks `0..y`.
pub open spec fn pieces_hash(l: i32, t: i32, b: Board, y: int) -> u64
    decreases y,
{
    if y <= 0 {
        0
    } else {
        pieces_hash(l, t, b, y - 1) ^ rank_hash(l, t, b, y - 1, 8)
    }
}

/// Keys of the castling rights `0..i` held on `b`.
pub open spec fn rights_hash(l: i32, t: i32, b: Board, i: int) -> u64
    decreases i,
{
    if i <= 0 {
        0
    } else {
        rights_hash(l, t, b, i - 1) ^ if b.castling.0@[i - 1] {
            mix_key(0xCACACACA_CACACACAu64, l as i64, t as i64, (i - 1) as i64, 0)
        } else {
            0u64
        }
    }
}

/// The keys of board `b`, the latest board of timeline `l` at time `t`: its pieces,
/// castling rights and en-passant target.
pub open spec fn board_terms(l: i32, t: i32, b: Board) -> u64 {
    pieces_hash(l, t, b, 8) ^ rights_hash(l, t, b, 4) ^ match b.en_passant {
        Some((ex, ey)) => mix_key(0xEEEE_EEEE_EEEE_EEEEu64, l as i64, t as i64, ex as i64, ey as i64),
        None => 0u64,
    }
}

/// What timeline `l` adds to the hash: its head (latest time and side to move) and
/// its origin; when it is active, also its activity key and the keys of its latest
/// board.
pub open spec fn timeline_hash(mv: MultiverseView, l: i32) -> u64 {
    let tl = mv.timelines[l];
    let t = last_t(tl) as i32;
    let b = latest_board(tl);
    head_key_value(l, t, b.to_move) ^ mix_key(0x7711_0077_7711_0077u64, l as i64, tl.t_start as i64, 0, 0) ^ (if active(mv, l as int) {
        mix_key(0xA11AA11A_A11AA11Au64, l as i64, 0, 0, 0)
    } else {
        0u64
    }) ^ (if active(mv, l as int) {
        board_terms(l, t, b)
    } else {
        0u64
    })
}

/// XOR of the timeline hashes of `ks`.
pub open spec fn timelines_hash(mv: MultiverseView, ks: Seq<i32>) -> u64
    decreases ks.len(),
{
    if ks.len() == 0 {
        0
    } else {
        timelines_hash(mv, ks.drop_last()) ^ timeline_hash(mv, ks.last())
    }
}

pub open spec fn side_key_value(c: Color) -> u64 {
    match c {
        Color::White => 0x5A5A5A5A5A5A5A5Au64,
        Color::Black => 0xA5A5A5A5A5A5A5A5u64,
    }
}

/// The hash of a position: every timeline, the side to move, the half-move clock and
/// the next timeline indices of both sides.
pub open spec fn position_hash(mv: MultiverseView) -> u64 {
    timelines_hash(mv, keys_seq(mv)) ^ side_key_value(mv.global_to_move) ^ splitmix(
        (mv.halfmove_clock as u64) ^ 0xF0F0F0F0F0F0F0F0u64,
    ) ^ mix_key(0x4E58_4E58_4E58_4E58u64, mv.next_white_l as i64, mv.next_black_l as i64, 0, 0)
}

proof fn lemma_timelines_hash_same(mv: MultiverseView, mv2: MultiverseView, ks: Seq<i32>)
    requires
        forall|l: i32| #[trigger] timeline_hash(mv, l) == timeline_hash(mv2, l),
    ensures
        timelines_hash(mv, ks) == timelines_hash(mv2, ks),
    decreases ks.len(),
{
    if ks.len() > 0 {
        lemma_timelines_hash_same(mv, mv2, ks.drop_last());
        assert(timeline_hash(mv, ks.last()) == timeline_hash(mv2, ks.last()));
    }
}

/// The hash of a position does not depend on the history of positions before it nor
/// on the full-move number, so a position that comes back hashes as it did before.
pub proof fn lemma_hash_ignores_history(mv: MultiverseView, history: Seq<u64>, fullmove: u32)
    requires
        mv_wf(mv),
    ensures
        position_hash(MultiverseView { position_history: history, fullmove_number: fullmove, ..mv })
            == position_hash(mv),
{
    let mv2 = MultiverseView { position_history: history, fullmove_number: fullmove, ..mv };
    lemma_keys_seq_props(mv);
    lemma_keys_seq_props(mv2);
    lemma_increasing_unique(keys_seq(mv), keys_seq(mv2));
    assert forall|l: i32| #[trigger] timeline_hash(mv, l) == timeline_hash(mv2, l) by {
        assert(active(mv, l as int) == active(mv2, l as int));
    }
    lemma_timelines_hash_same(mv, mv2, keys_seq(mv));
}

/// The hash reads, of each timeline, only its origin, its latest time and the
/// latest board: of an inactive timeline only the side to move there. Positions that
/// agree on these, on the side to move, the half-move clock and the next timeline
/// indices hash alike, whatever their earlier boards, history and move number.
pub proof fn lemma_hash_reads_latest_boards(mv1: MultiverseView, mv2: MultiverseView)
    requires
        mv_wf(mv1),
        mv_wf(mv2),
        mv1.timelines.dom() == mv2.timelines.dom(),
        forall|l: i32| #[trigger] mv1.timelines.contains_key(l) ==> {
            &&& mv1.timelines[l].t_start == mv2.timelines[l].t_start
            &&& last_t(mv1.timelines[l]) == last_t(mv2.timelines[l])
            &&& latest_board(mv1.timelines[l]).to_move == latest_board(mv2.timelines[l]).to_move
            &&& active(mv1, l as int) ==> latest_board(mv1.timelines[l]) == latest_board(mv2.timelines[l])
        },
        mv1.global_to_move == mv2.global_to_move,
        mv1.halfmove_clock == mv2.halfmove_clock,
        mv1.next_white_l == mv2.next_white_l,
        mv1.next_black_l == mv2.next_black_l,
    ensures
        position_hash(mv1) == position_hash(mv2),
{
    assert(keys_seq(mv1) == keys_seq(mv2));
    lemma_keys_seq_props(mv1);
    lemma_timelines_hash_eq(mv1, mv2, keys_seq(mv1));
}

proof fn lemma_timelines_hash_eq(mv1: MultiverseView, mv2: MultiverseView, ks: Seq<i32>)
    requires
        keys_seq(mv1) == keys_seq(mv2),
        forall|j: int| 0 <= j < ks.len() ==> mv1.timelines.contains_key(#[trigger] ks[j]),
        forall|l: i32| #[trigger] mv1.timelines.contains_key(l) ==> {
            &&& mv1.timelines[l].t_start == mv2.timelines[l].t_start
            &&& last_t(mv1.timelines[l]) == last_t(mv2.timelines[l])
            &&& latest_board(mv1.timelines[l]).to_move == latest_board(mv2.timelines[l]).to_move
            &&& active(mv1, l as int) ==> latest_board(mv1.timelines[l]) == latest_board(mv2.timelines[l])
        },
    ensures
        timelines_hash(mv1, ks) == timelines_hash(mv2, ks),
    decreases ks.len(),
{
    if ks.len() > 0 {
        lemma_timelines_hash_eq(mv1, mv2, ks.drop_last());
        let l = ks.last();
        assert(mv1.timelines.contains_key(l));
        assert(active(mv1, l as int) == active(mv2, l as int));
        assert(timeline_hash(mv1, l) == timeline_hash(mv2, l));
    }
}

fn splitmix64(x: u64) -> (r: u64)
    ensures
        r == splitmix(x),
{
    let x1 = x.wrapping_add(0x9E3779B97F4A7C15);
    let x2 = (x1 ^ (x1 >> 30u64)).wrapping_mul(0xBF58476D1CE4E5B9);
    let x3 = (x2 ^ (x2 >> 27u64)).wrapping_mul(0x94D049BB133111EB);
    x3 ^ (x3 >> 31u64)
}

fn mix(tag: u64, a: i64, b: i64, c: i64, d: i64) -> (r: u64)
    ensures
        r == mix_key(tag, a, b, c, d),
{
    let seed = tag ^ (a as u64).wrapping_mul(0x9E3779B97F4A7C15) ^ (b as u64).wrapping_mul(
        0xC6BC279692B5C323,
    ) ^ (c as u64).wrapping_mul(0xD6E8FEB86659FD93) ^ (d as u64).wrapping_mul(0xA5CB9243E6E0B9F1);
    splitmix64(seed)
}

fn color_num(c: Color) -> (r: u64)
    ensures
        r == color_code(c),
{
    match c {
        Color::White => 0,
        Color::Black => 1,
    }
}

fn kind_num(k: PieceKind) -> (r: u64)
    ensures
        r == kind_code(k),
{
    match k {
        PieceKind::Pawn => 0,
        PieceKind::Knight => 1,
        PieceKind::Bishop => 2,
        PieceKind::Rook => 3,
        PieceKind::Queen => 4,
        PieceKind::King => 5,
        PieceKind::Unicorn => 6,
        PieceKind::Dragon => 7,
        PieceKind::Princess => 8,
        PieceKind::Brawn => 9,
    }
}

fn piece_key(l: i32, t: i32, x: i8, y: i8, color: Color, kind: PieceKind) -> (r: u64)
    ensures
        r == piece_key_value(l, t, x, y, color, kind),
{
    let tag = 0x5050_5050_5050_5050u64 ^ (color_num(color) << 48u64) ^ (kind_num(kind) << 56u64);
    mix(tag, l as i64, t as i64, x as i64, y as i64)
}

fn tl_head_key(l: i32, t: i32, to_move: Color) -> (r: u64)
    ensures
        r == head_key_value(l, t, to_move),
{
    mix(0xABCD_1234_5678_9ABCu64 ^ (color_num(to_move) << 60u64), l as i64, t as i64, 0, 0)
}

fn global_side_key(c: Color) -> (r: u64)
    ensures
        r == side_key_value(c),
{
    match c {
        Color::White => 0x5A5A5A5A5A5A5A5Au64,
        Color::Black => 0xA5A5A5A5A5A5A5A5u64,
    }
}

/// The hash of the latest board of timeline `l`, at time `t`.
fn board_hash(l: i32, t: i32, b: &Board) -> (r: u64)
    ensures
        r == pieces_hash(l, t, *b, 8) ^ rights_hash(l, t, *b, 4) ^ match b.en_passant {
            Some((ex, ey)) => mix_key(0xEEEE_EEEE_EEEE_EEEEu64, l as i64, t as i64, ex as i64, ey as i64),
            None => 0u64,
        },
{
    let mut h: u64 = 0;
    let mut y: i8 = 0;
    while y < 8
        invariant
            0 <= y <= 8,
            h == pieces_hash(l, t, *b, y as int),
        decreases 8 - y,
    {
        let mut x: i8 = 0;
        let ghost h0 = h;
        proof {
            assert(h ^ 0u64 == h) by (bit_vector);
        }
        while x < 8
            invariant
                0 <= x <= 8,
                0 <= y < 8,
                h0 == pieces_hash(l, t, *b, y as int),
                h == h0 ^ rank_hash(l, t, *b, y as int, x as int),
            decreases 8 - x,
        {
            let ghost hx = rank_hash(l, t, *b, y as int, x as int);
            let k: u64 = match b.get(x, y) {
                Some(p) => piece_key(l, t, x, y, p.color, p.kind),
                None => 0,
            };
            proof {
                assert(rank_hash(l, t, *b, y as int, x + 1) == hx ^ k);
                assert(h ^ k == h0 ^ (hx ^ k)) by (bit_vector)
                    requires
                        h == h0 ^ hx,
                ;
            }
            h = h ^ k;
            x = x + 1;
        }
        y = y + 1;
    }
    let mut i: usize = 0;
    let ghost hp = h;
    proof {
        assert(h ^ 0u64 == h) by (bit_vector);
    }
    while i < 4
        invariant
            i <= 4,
            hp == pieces_hash(l, t, *b, 8),
            h == hp ^ rights_hash(l, t, *b, i as int),
        decreases 4 - i,
    {
        let ghost hr = rights_hash(l, t, *b, i as int);
        let k: u64 = if b.castling.0[i] {
            mix(0xCACACACA_CACACACAu64, l as i64, t as i64, i as i64, 0)
        } else {
            0
        };
        proof {
            assert(rights_hash(l, t, *b, i + 1) == hr ^ k);
            assert(h ^ k == hp ^ (hr ^ k)) by (bit_vector)
                requires
                    h == hp ^ hr,
            ;
        }
        h = h ^ k;
        i = i + 1;
    }
    let e: u64 = match b.en_passant {
        Some((ex, ey)) => mix(0xEEEE_EEEE_EEEE_EEEEu64, l as i64, t as i64, ex as i64, ey as i64),
        None => 0,
    };
    h ^ e
}

/// The hash of a position: timelines' heads and origins, the activity and latest
/// boards of the active timelines, the side to move, the half-move clock and the
/// next timeline indices.
pub fn zobrist(mv: &Multiverse) -> (h: u64)
    requires
        mv_wf(mv@),
    ensures
        h == position_hash(mv@),
{
    let ks = mv.timeline_keys();
    let lim = mv.active_limit();
    proof {
        crate::multiverse::lemma_keys_seq_props(mv@);
        crate::multiverse::lemma_view_timelines(*mv);
    }
    let mut h: u64 = 0;
    let mut i: usize = 0;
    while i < ks.len()
        invariant
            i <= ks@.len(),
            ks@ == keys_seq(mv@),
            ks@.to_set() == mv@.timelines.dom(),
            mv@.timelines.dom() == mv.timelines@.dom(),
            forall|l: i32| #[trigger] mv.timelines@.contains_key(l) ==> mv@.timelines[l] == mv.timelines@[l]@,
            mv_wf(mv@),
            crate::attack::lim_ok(mv@, lim),
            h == timelines_hash(mv@, ks@.take(i as int)),
        decreases ks@.len() - i,
    {
        let l = ks[i];
        proof {
            assert(ks@.to_set().contains(l));
            assert(ks@.take(i + 1).drop_last() =~= ks@.take(i as int));
        }
        let tl = mv.timelines.get(&l).unwrap();
        let t = tl.latest_t();
        let b = &tl.boards[tl.boards.len() - 1];
        let on = crate::attack::within(l, lim);
        let a: u64 = if on {
            mix(0xA11AA11A_A11AA11Au64, l as i64, 0, 0, 0)
        } else {
            0
        };
        let bh: u64 = if on {
            board_hash(l, t, b)
        } else {
            0
        };
        let k = tl_head_key(l, t, b.to_move) ^ mix(0x7711_0077_7711_0077u64, l as i64, tl.t_start as i64, 0, 0) ^ a ^ bh;
        let ghost before = h;
        proof {
            assert(k == timeline_hash(mv@, l));
        }
        h = h ^ k;
        i = i + 1;
    }
    proof {
        assert(ks@.take(ks@.len() as int) =~= ks@);
    }
    h = h ^ global_side_key(mv.global_to_move);
    h = h ^ splitmix64((mv.halfmove_clock as u64) ^ 0xF0F0F0F0F0F0F0F0u64);
    h = h ^ mix(0x4E58_4E58_4E58_4E58u64, mv.next_white_l as i64, mv.next_black_l as i64, 0, 0);
    h
}

} // verus!
