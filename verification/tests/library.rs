//! Library behaviour on concrete positions: notation, evaluation, draw rules, move
//! application, generation and search.

use std::collections::BTreeMap;
use std::sync::Arc;

use fdgm::board::{in_bounds, Board, CastleSide, CastlingRights};
use fdgm::eval::{evaluate, piece_value};
use fdgm::game::{game_status, is_listed_turn, GameStatus};
use fdgm::movegen::{
    apply_move, apply_move_partial, apply_turn, apply_turn_with_history,
    generate_capture_moves_from_board, generate_legal_moves, generate_legal_turn_plans,
    generate_pseudo_moves, generate_pseudo_moves_any_turn, in_check, required_source_boards,
    MAX_PLANS_PER_POSITION,
};
use fdgm::moves::{Move, MoveKind};
use fdgm::multiverse::{Multiverse, Timeline};
use fdgm::notation::{
    fmt_coord, fmt_move, fmt_turn, parse_coord, parse_user_move, parse_user_turn,
};
use fdgm::perft::perft;
use fdgm::search::{search, search_with_timeout, MATE};
use fdgm::types::{BoardId, Color, Coord, Piece, PieceKind};
use fdgm::zobrist::zobrist;

// ----- helpers -----------------------------------------------------------------

fn single(b: Board, side: Color) -> Multiverse {
    let mut tls = BTreeMap::new();
    tls.insert(
        0,
        Timeline {
            t_start: 0,
            boards: Arc::new(vec![b]),
            creator: None,
        },
    );
    Multiverse {
        timelines: tls,
        next_white_l: 1,
        next_black_l: -1,
        global_to_move: side,
        halfmove_clock: 0,
        fullmove_number: 1,
        position_history: Vec::new(),
    }
}

fn kings(side: Color) -> Board {
    let mut b = Board::empty(side);
    b.set(4, 0, Some(Piece::new(PieceKind::King, Color::White)));
    b.set(4, 7, Some(Piece::new(PieceKind::King, Color::Black)));
    b
}

fn mk(from: Coord, to: Coord, mover: Color, kind: MoveKind, capture: bool) -> Move {
    Move {
        from,
        to,
        promotion: None,
        capture,
        mover,
        kind,
    }
}

fn e2e4() -> Move {
    mk(
        Coord::new(0, 0, 4, 1),
        Coord::new(0, 0, 4, 3),
        Color::White,
        MoveKind::DoublePush,
        false,
    )
}

/// After 1. e4, with the T=1 board handed back to White so that a knight may jump
/// from T=1 to the past board T=0.
fn before_branch() -> Multiverse {
    let mut mv = apply_turn(&Multiverse::standard_start(), &vec![e2e4()]);
    mv.global_to_move = Color::White;
    let tl = mv.timelines.get_mut(&0).unwrap();
    tl.get_board_mut(1).unwrap().to_move = Color::White;
    mv
}

fn branch_jump() -> Move {
    mk(
        Coord::new(0, 1, 6, 0),
        Coord::new(0, 0, 6, 2),
        Color::White,
        MoveKind::Normal,
        false,
    )
}

/// Two timelines whose latest boards are both at the present with White to move.
fn two_timelines() -> Multiverse {
    let b = Board::starting_position();
    let mut tls = BTreeMap::new();
    tls.insert(
        0,
        Timeline {
            t_start: 0,
            boards: Arc::new(vec![b]),
            creator: None,
        },
    );
    tls.insert(
        1,
        Timeline {
            t_start: 0,
            boards: Arc::new(vec![b]),
            creator: Some(Color::White),
        },
    );
    Multiverse {
        timelines: tls,
        next_white_l: 2,
        next_black_l: -1,
        global_to_move: Color::White,
        halfmove_clock: 0,
        fullmove_number: 1,
        position_history: Vec::new(),
    }
}

// ----- types and boards --------------------------------------------------------

#[test]
fn colors_flip_and_sign() {
    assert_eq!(Color::White.flip(), Color::Black);
    assert_eq!(Color::Black.flip(), Color::White);
    assert_eq!(Color::White.sign(), 1);
    assert_eq!(Color::Black.sign(), -1);
}

#[test]
fn piece_letters_read_back() {
    let kinds = [
        PieceKind::Pawn,
        PieceKind::Knight,
        PieceKind::Bishop,
        PieceKind::Rook,
        PieceKind::Queen,
        PieceKind::King,
        PieceKind::Unicorn,
        PieceKind::Dragon,
        PieceKind::Princess,
        PieceKind::Brawn,
    ];
    for k in kinds {
        assert_eq!(PieceKind::from_letter(k.letter()), Some(k));
        assert_eq!(
            PieceKind::from_letter(k.letter().to_ascii_lowercase()),
            Some(k)
        );
    }
    assert_eq!(PieceKind::from_letter('x'), None);
    assert_eq!(PieceKind::Princess.letter(), 'S');
    assert_eq!(PieceKind::Brawn.letter(), 'W');
    assert!(PieceKind::Pawn.is_pawnlike());
    assert!(PieceKind::Brawn.is_pawnlike());
    assert!(!PieceKind::Knight.is_pawnlike());
    assert_eq!(Piece::new(PieceKind::Queen, Color::White).glyph(), 'Q');
    assert_eq!(Piece::new(PieceKind::Queen, Color::Black).glyph(), 'q');
    assert!(!Piece::new(PieceKind::Queen, Color::Black).has_moved);
}

#[test]
fn coordinates_name_their_board() {
    let c = Coord::new(-2, 5, 3, 6);
    assert_eq!(c.board(), BoardId { l: -2, t: 5 });
    assert_eq!(BoardId { l: 2, t: -4 }.to_text(), "(L2T-4)");
    assert_eq!(c.to_text(), "(L-2T5)d7");
}

#[test]
fn board_squares_and_bounds() {
    let mut b = Board::empty(Color::Black);
    assert!(b.get(0, 0).is_none());
    assert!(b.get(-1, 3).is_none());
    assert!(b.get(3, 8).is_none());
    b.set(2, 5, Some(Piece::new(PieceKind::Unicorn, Color::White)));
    assert_eq!(b.get(2, 5).unwrap().kind, PieceKind::Unicorn);
    assert!(in_bounds(0, 7));
    assert!(!in_bounds(8, 0));
    assert!(!in_bounds(0, -1));
    assert_eq!(b.to_move, Color::Black);
    assert_eq!(b.en_passant, None);
}

#[test]
fn castling_rights_set_and_read() {
    let mut cr = CastlingRights::none();
    assert!(!cr.get(CastleSide::WhiteKing));
    cr.set(CastleSide::BlackQueen, true);
    assert!(cr.get(CastleSide::BlackQueen));
    assert!(!cr.get(CastleSide::BlackKing));
    let all = CastlingRights::all();
    assert!(all.get(CastleSide::WhiteKing) && all.get(CastleSide::WhiteQueen));
    assert!(all.get(CastleSide::BlackKing) && all.get(CastleSide::BlackQueen));
}

#[test]
fn starting_position_layout() {
    let b = Board::starting_position();
    assert_eq!(b.get(4, 0).unwrap(), Piece::new(PieceKind::King, Color::White));
    assert_eq!(b.get(3, 7).unwrap(), Piece::new(PieceKind::Queen, Color::Black));
    for x in 0..8 {
        assert_eq!(b.get(x, 1).unwrap().kind, PieceKind::Pawn);
        assert_eq!(b.get(x, 6).unwrap().color, Color::Black);
        assert!(b.get(x, 3).is_none());
    }
    assert_eq!(b.find_king(Color::White), Some((4, 0)));
    assert_eq!(b.find_king(Color::Black), Some((4, 7)));
    assert_eq!(b.to_move, Color::White);
}

#[test]
fn find_king_takes_the_first_in_scan_order() {
    let mut b = Board::empty(Color::Black);
    b.set(7, 7, Some(Piece::new(PieceKind::King, Color::Black)));
    b.set(6, 7, Some(Piece::new(PieceKind::King, Color::Black)));
    assert_eq!(b.find_king(Color::Black), Some((6, 7)));
    assert_eq!(b.find_king(Color::White), None);
}

#[test]
fn board_ascii_is_exact() {
    let text = Board::starting_position().ascii();
    let expected = "8 r n b q k b n r \n7 p p p p p p p p \n6 . . . . . . . . \n5 . . . . . . . . \n4 . . . . . . . . \n3 . . . . . . . . \n2 P P P P P P P P \n1 R N B Q K B N R \n  a b c d e f g h\n";
    assert_eq!(text, expected);
}

// ----- multiverse --------------------------------------------------------------

#[test]
fn multiverse_ascii_starts_with_the_timeline_header() {
    let text = Multiverse::standard_start().ascii();
    assert!(text.starts_with("== Timeline L=0 (t=0..0) active=true ==\n  latest T=0, to_move=White\n8 r n b q k b n r \n"));
    assert!(text.ends_with("  a b c d e f g h\nGlobal to move: White    Present T = 0\n"));
}

#[test]
fn activation_rule_counts_timelines() {
    let mut mv = two_timelines();
    assert_eq!(mv.timeline_counts(), (1, 0));
    // min(1, 0) + 1 = 1
    assert!(mv.is_active(0));
    assert!(mv.is_active(1));
    assert!(mv.is_active(-1));
    assert!(!mv.is_active(2));
    let b = Board::starting_position();
    mv.timelines.insert(
        2,
        Timeline {
            t_start: 0,
            boards: Arc::new(vec![b]),
            creator: Some(Color::White),
        },
    );
    assert_eq!(mv.timeline_counts(), (2, 0));
    assert!(!mv.is_active(2));
}

#[test]
fn present_is_the_least_time_with_the_side_to_move() {
    let mut mv = two_timelines();
    assert_eq!(mv.present_t(), 0);
    let b = Board::starting_position();
    mv.timelines.get_mut(&1).unwrap().push_board(b);
    mv.timelines.get_mut(&1).unwrap().push_board(b);
    // timeline 1 has latest T=2, timeline 0 latest T=0: both White to move.
    assert_eq!(mv.present_t(), 0);
    assert_eq!(required_source_boards(&mv, Color::White), vec![BoardId { l: 0, t: 0 }]);
}

#[test]
fn timeline_boards_by_time() {
    let mut tl = Timeline {
        t_start: 3,
        boards: Arc::new(vec![Board::empty(Color::White)]),
        creator: None,
    };
    assert_eq!(tl.latest_t(), 3);
    assert!(tl.get_board(2).is_none());
    assert!(tl.get_board(4).is_none());
    tl.push_board(Board::starting_position());
    assert_eq!(tl.latest_t(), 4);
    assert_eq!(tl.get_board(4).unwrap().get(0, 0).unwrap().kind, PieceKind::Rook);
}

#[test]
fn mutating_a_shared_timeline_leaves_the_copy_alone() {
    let mv = Multiverse::standard_start();
    let mut copy = mv.clone();
    {
        let tl = copy.timelines.get_mut(&0).unwrap();
        let b = tl.get_board_mut(0).unwrap();
        b.set(4, 1, None);
    }
    assert!(copy.board(BoardId { l: 0, t: 0 }).unwrap().get(4, 1).is_none());
    assert!(mv.board(BoardId { l: 0, t: 0 }).unwrap().get(4, 1).is_some());
}

#[test]
fn new_timeline_indices_count_outward() {
    let mut mv = Multiverse::standard_start();
    assert_eq!(mv.new_timeline_index(Color::White), 1);
    assert_eq!(mv.new_timeline_index(Color::White), 2);
    assert_eq!(mv.new_timeline_index(Color::Black), -1);
    assert_eq!(mv.new_timeline_index(Color::Black), -2);
    assert_eq!(mv.next_white_l, 3);
    assert_eq!(mv.next_black_l, -3);
    assert!(!mv.timelines.contains_key(&3) && !mv.timelines.contains_key(&-3));
}

#[test]
fn draw_rules() {
    let mut mv = single(kings(Color::White), Color::White);
    assert!(mv.is_insufficient_material());
    mv.halfmove_clock = 99;
    assert!(!mv.is_50move_draw());
    mv.halfmove_clock = 100;
    assert!(mv.is_50move_draw());
    assert!(!mv.is_threefold());
    mv.position_history = vec![7, 9, 7, 8, 7];
    assert!(mv.is_threefold());
    mv.position_history = vec![7, 9, 7, 8];
    assert!(!mv.is_threefold());
    assert!(!Multiverse::standard_start().is_insufficient_material());
    let mut b = kings(Color::White);
    b.set(1, 0, Some(Piece::new(PieceKind::Knight, Color::White)));
    assert!(single(b, Color::White).is_insufficient_material());
    b.set(2, 0, Some(Piece::new(PieceKind::Bishop, Color::White)));
    assert!(!single(b, Color::White).is_insufficient_material());
}

// ----- evaluation --------------------------------------------------------------

#[test]
fn piece_values() {
    assert_eq!(piece_value(PieceKind::Pawn), 100);
    assert_eq!(piece_value(PieceKind::Brawn), 150);
    assert_eq!(piece_value(PieceKind::Knight), 320);
    assert_eq!(piece_value(PieceKind::Bishop), 330);
    assert_eq!(piece_value(PieceKind::Rook), 500);
    assert_eq!(piece_value(PieceKind::Unicorn), 500);
    assert_eq!(piece_value(PieceKind::Dragon), 550);
    assert_eq!(piece_value(PieceKind::Princess), 650);
    assert_eq!(piece_value(PieceKind::Queen), 900);
    assert_eq!(piece_value(PieceKind::King), 20_000);
}

#[test]
fn evaluation_of_the_start_is_frontier_plus_tempo() {
    // Both sides are alike; the present board has White to move (-5) and White has
    // the tempo (+10).
    assert_eq!(evaluate(&Multiverse::standard_start()), 5);
}

#[test]
fn evaluation_counts_material_and_squares() {
    assert_eq!(evaluate(&single(kings(Color::White), Color::White)), 5);
    // Black to move: frontier +5, tempo -10.
    assert_eq!(evaluate(&single(kings(Color::Black), Color::Black)), -5);
    // A rook on the seventh: 500 + 5 (square) + 20 (seventh rank).
    let mut b = kings(Color::White);
    b.set(0, 6, Some(Piece::new(PieceKind::Rook, Color::White)));
    assert_eq!(evaluate(&single(b, Color::White)), 530);
    // A lone pawn on e4: 100 + 20 (square) - 12 (isolated) + 25 (passed, rank 4).
    let mut b = kings(Color::White);
    b.set(4, 3, Some(Piece::new(PieceKind::Pawn, Color::White)));
    assert_eq!(evaluate(&single(b, Color::White)), 138);
}

// ----- notation ----------------------------------------------------------------

#[test]
fn coordinates_print() {
    assert_eq!(fmt_coord(Coord::new(0, 0, 4, 1)), "(L0T0)e2");
    assert_eq!(fmt_coord(Coord::new(-1, 3, 7, 7)), "(L-1T3)h8");
    assert_eq!(fmt_coord(Coord::new(12, -30, 0, 0)), "(L12T-30)a1");
}

#[test]
fn moves_and_turns_print() {
    assert_eq!(fmt_move(&e2e4()), "(L0T0)e2 -> (L0T0)e4");
    let cap = mk(
        Coord::new(0, 2, 3, 4),
        Coord::new(0, 2, 4, 3),
        Color::Black,
        MoveKind::Normal,
        true,
    );
    assert_eq!(fmt_move(&cap), "(L0T2)d5 x (L0T2)e4");
    let mut promo = mk(
        Coord::new(1, 4, 0, 6),
        Coord::new(1, 4, 0, 7),
        Color::White,
        MoveKind::Normal,
        false,
    );
    promo.promotion = Some(PieceKind::Knight);
    assert_eq!(fmt_move(&promo), "(L1T4)a7 -> (L1T4)a8=N");
    let oo = mk(
        Coord::new(0, 0, 4, 0),
        Coord::new(0, 0, 6, 0),
        Color::White,
        MoveKind::CastleKing,
        false,
    );
    let ooo = mk(
        Coord::new(0, 0, 4, 0),
        Coord::new(0, 0, 2, 0),
        Color::White,
        MoveKind::CastleQueen,
        false,
    );
    assert_eq!(fmt_move(&oo), "O-O");
    assert_eq!(fmt_move(&ooo), "O-O-O");
    assert_eq!(fmt_turn(&vec![oo, e2e4()]), "O-O; (L0T0)e2 -> (L0T0)e4");
    assert_eq!(fmt_turn(&vec![]), "");
}

#[test]
fn coordinates_read() {
    assert_eq!(parse_coord("(L0T0)e2"), Some(Coord::new(0, 0, 4, 1)));
    assert_eq!(parse_coord("  ( L -1 T 3 ) h8  "), Some(Coord::new(-1, 3, 7, 7)));
    assert_eq!(parse_coord("(L+2T0)a1"), Some(Coord::new(2, 0, 0, 0)));
    assert_eq!(parse_coord("(L0T0)e2xyz"), Some(Coord::new(0, 0, 4, 1)));
    assert_eq!(parse_coord("(L0T0)i2"), None);
    assert_eq!(parse_coord("(L0T0)e9"), None);
    assert_eq!(parse_coord("(L0T0)e"), None);
    assert_eq!(parse_coord("L0T0)e2"), None);
    assert_eq!(parse_coord("(L0T0 e2"), None);
    assert_eq!(parse_coord("(LxT0)e2"), None);
    assert_eq!(parse_coord("(L0T)e2"), None);
    assert_eq!(parse_coord("(L0)e2"), None);
    assert_eq!(parse_coord("(L99999999999T0)e2"), None);
    assert_eq!(parse_coord(""), None);
}

#[test]
fn printed_coordinates_read_back() {
    for &(l, t) in &[(0, 0), (-1, 3), (7, -2), (i32::MIN, i32::MAX), (i32::MAX, i32::MIN)] {
        for x in 0..8 {
            for y in 0..8 {
                let c = Coord::new(l, t, x, y);
                assert_eq!(parse_coord(&fmt_coord(c)), Some(c));
            }
        }
    }
}

#[test]
fn labels_naming_time_first_read_as_nothing() {
    let mv = Multiverse::standard_start();
    assert_eq!(parse_coord("(T0L0)e2"), None);
    assert_eq!(parse_user_move(&mv, "(T0L0)e2 -> (L0T0)e4", Color::White), None);
    assert_eq!(parse_user_move(&mv, "(L0T0)e2 -> (T0L0)e4", Color::White), None);
    assert!(parse_user_turn(&mv, "(T0L0)e2 -> (L0T0)e4", Color::White).is_none());
    assert!(parse_user_turn(&mv, "nonsense; (T0L0)e2 -> (L0T0)e4", Color::White).is_none());
}

#[test]
fn user_moves_read() {
    let mv = Multiverse::standard_start();
    let m = parse_user_move(&mv, "(L0T0)e2 -> (L0T0)e4", Color::White).unwrap();
    assert_eq!(
        m,
        mk(
            Coord::new(0, 0, 4, 1),
            Coord::new(0, 0, 4, 3),
            Color::White,
            MoveKind::Normal,
            false
        )
    );
    assert_eq!(parse_user_move(&mv, "(L0T0)e2 (L0T0)e4", Color::White), Some(m));
    assert_eq!(parse_user_move(&mv, "(L0T0)e7 -> (L0T0)e5", Color::White), None);
    assert_eq!(parse_user_move(&mv, "(L0T0)e4 -> (L0T0)e5", Color::White), None);
    assert_eq!(parse_user_move(&mv, "(L0T0)e2", Color::White), None);
    assert_eq!(parse_user_move(&mv, "(L5T0)e2 -> (L5T0)e4", Color::White), None);
    // The destination holds a piece: a capture.
    let c = parse_user_move(&mv, "(L0T0)d1 x (L0T0)d7", Color::White).unwrap();
    assert!(c.capture);
}

#[test]
fn user_castling_is_recognised() {
    let mut b = kings(Color::White);
    b.set(7, 0, Some(Piece::new(PieceKind::Rook, Color::White)));
    b.set(0, 0, Some(Piece::new(PieceKind::Rook, Color::White)));
    let mv = single(b, Color::White);
    let k = parse_user_move(&mv, "(L0T0)e1 -> (L0T0)g1", Color::White).unwrap();
    assert_eq!(k.kind, MoveKind::CastleKing);
    let q = parse_user_move(&mv, "(L0T0)e1 -> (L0T0)c1", Color::White).unwrap();
    assert_eq!(q.kind, MoveKind::CastleQueen);
    let n = parse_user_move(&mv, "(L0T0)e1 -> (L0T0)f1", Color::White).unwrap();
    assert_eq!(n.kind, MoveKind::Normal);
}

#[test]
fn user_turns_read() {
    let mv = Multiverse::standard_start();
    let p = parse_user_turn(&mv, "(L0T0)e2 -> (L0T0)e4", Color::White).unwrap();
    assert_eq!(p.len(), 1);
    let p2 = parse_user_turn(
        &mv,
        " (L0T0)e2 -> (L0T0)e4 ;; (L0T0)d2 -> (L0T0)d4 ; ",
        Color::White,
    )
    .unwrap();
    assert_eq!(p2.len(), 2);
    assert_eq!(p2[1].from, Coord::new(0, 0, 3, 1));
    assert_eq!(parse_user_turn(&mv, "", Color::White), None);
    assert_eq!(parse_user_turn(&mv, " ; ;", Color::White), None);
    assert_eq!(
        parse_user_turn(&mv, "(L0T0)e2 -> (L0T0)e4; garbage", Color::White),
        None
    );
}

// ----- applying moves and turns -----------------------------------------------

#[test]
fn partial_moves_keep_the_side_to_move() {
    let mv = Multiverse::standard_start();
    let after = apply_move_partial(&mv, e2e4());
    assert_eq!(after.global_to_move, Color::White);
    let full = apply_move(&mv, e2e4());
    assert_eq!(full.global_to_move, Color::Black);
    assert_eq!(full.timelines.get(&0).unwrap().boards.len(), 2);
}

#[test]
fn a_turn_flips_the_side_and_keeps_the_history() {
    let mut mv = Multiverse::standard_start();
    mv.position_history = vec![11, 22];
    mv.halfmove_clock = 7;
    let after = apply_turn(&mv, &vec![e2e4()]);
    assert_eq!(after.global_to_move, Color::Black);
    assert_eq!(after.position_history, vec![11, 22]);
    assert_eq!(after.halfmove_clock, 0); // a pawn moved
    assert_eq!(after.fullmove_number, 1);
    let reply = mk(
        Coord::new(0, 1, 6, 7),
        Coord::new(0, 1, 5, 5),
        Color::Black,
        MoveKind::Normal,
        false,
    );
    let after2 = apply_turn(&after, &vec![reply]);
    assert_eq!(after2.global_to_move, Color::White);
    assert_eq!(after2.halfmove_clock, 1); // a knight moved
    assert_eq!(after2.fullmove_number, 2); // Black completed the move pair
}

#[test]
fn turns_with_history_record_the_new_position() {
    let mv = Multiverse::standard_start();
    let plain = apply_turn(&mv, &vec![e2e4()]);
    let recorded = apply_turn_with_history(&mv, &vec![e2e4()]);
    assert_eq!(recorded.position_history, vec![zobrist(&plain)]);
    assert_eq!(zobrist(&recorded), zobrist(&plain));
}

#[test]
fn branching_keeps_every_earlier_board() {
    let mv = before_branch();
    let before: Vec<Board> = mv.timelines.get(&0).unwrap().boards.to_vec();
    let after = apply_move_partial(&mv, branch_jump());
    let tl0 = after.timelines.get(&0).unwrap();
    for (i, b) in before.iter().enumerate() {
        assert_eq!(tl0.boards[i], *b);
    }
    // The knight left its square on a new board of timeline 0 ...
    assert!(tl0.boards[2].get(6, 0).is_none());
    // ... and arrived on the copy of T=0 that starts timeline 1.
    let tl1 = after.timelines.get(&1).unwrap();
    assert_eq!(tl1.creator, Some(Color::White));
    assert_eq!(tl1.boards[0].get(6, 2).unwrap().kind, PieceKind::Knight);
    assert_eq!(after.next_white_l, 2);
}

// ----- generation ----------------------------------------------------------------

#[test]
fn pseudo_moves_of_the_start() {
    let mv = Multiverse::standard_start();
    let white = generate_pseudo_moves(&mv, Color::White);
    assert!(white.contains(&e2e4()));
    // Black has no board to move on yet; ignoring whose turn it is, it has moves.
    assert!(generate_pseudo_moves(&mv, Color::Black).is_empty());
    assert!(!generate_pseudo_moves_any_turn(&mv, Color::Black).is_empty());
    assert!(generate_capture_moves_from_board(&mv, BoardId { l: 0, t: 0 }, Color::White).is_empty());
}

#[test]
fn captures_from_one_board() {
    let mut b = kings(Color::White);
    b.set(0, 0, Some(Piece::new(PieceKind::Rook, Color::White)));
    b.set(0, 5, Some(Piece::new(PieceKind::Knight, Color::Black)));
    let mv = single(b, Color::White);
    let caps = generate_capture_moves_from_board(&mv, BoardId { l: 0, t: 0 }, Color::White);
    assert_eq!(caps.len(), 1);
    assert_eq!(caps[0].to, Coord::new(0, 0, 0, 5));
    assert!(caps[0].capture);
}

#[test]
fn every_plan_moves_once_from_each_required_board() {
    let mv = two_timelines();
    let req = required_source_boards(&mv, Color::White);
    assert_eq!(req, vec![BoardId { l: 0, t: 0 }, BoardId { l: 1, t: 0 }]);
    let plans = generate_legal_turn_plans(&mv);
    assert!(!plans.is_empty());
    assert!(plans.len() <= MAX_PLANS_PER_POSITION);
    for p in &plans {
        assert_eq!(p.len(), 2);
        assert_eq!(p[0].from.board(), req[0]);
        assert_eq!(p[1].from.board(), req[1]);
        // A legal plan leaves no king of the mover in check.
        let after = apply_turn(&mv, p);
        assert!(!in_check(&after, Color::White));
    }
}

#[test]
fn legal_moves_are_distinct_first_moves() {
    let mv = Multiverse::standard_start();
    let moves = generate_legal_moves(&mv, Color::White);
    let plans = generate_legal_turn_plans(&mv);
    for (i, m) in moves.iter().enumerate() {
        assert!(plans.iter().any(|p| p[0] == *m));
        assert!(!moves[i + 1..].contains(m));
    }
    for p in &plans {
        assert!(moves.contains(&p[0]));
    }
}

#[test]
fn check_is_seen_along_the_time_axis() {
    // A rook one board back in time on the same square line attacks along T.
    let mut past = kings(Color::White);
    past.set(4, 4, Some(Piece::new(PieceKind::Rook, Color::Black)));
    past.set(4, 7, None);
    past.set(0, 7, Some(Piece::new(PieceKind::King, Color::Black)));
    let mut now = Board::empty(Color::White);
    now.set(4, 4, Some(Piece::new(PieceKind::King, Color::White)));
    now.set(0, 7, Some(Piece::new(PieceKind::King, Color::Black)));
    let mut tls = BTreeMap::new();
    tls.insert(
        0,
        Timeline {
            t_start: 0,
            boards: Arc::new(vec![past, now]),
            creator: None,
        },
    );
    let mv = Multiverse {
        timelines: tls,
        next_white_l: 1,
        next_black_l: -1,
        global_to_move: Color::White,
        halfmove_clock: 0,
        fullmove_number: 1,
        position_history: Vec::new(),
    };
    assert!(in_check(&mv, Color::White));
    assert!(!in_check(&mv, Color::Black));
}

#[test]
fn perft_counts_turn_sequences() {
    let mv = Multiverse::standard_start();
    assert_eq!(perft(&mv, 0), 1);
    let plans = generate_legal_turn_plans(&mv);
    assert_eq!(perft(&mv, 1), plans.len() as u64);
    let mut total = 0u64;
    for p in &plans {
        total += generate_legal_turn_plans(&apply_turn(&mv, p)).len() as u64;
    }
    assert_eq!(perft(&mv, 2), total);
}

// ----- hashing -------------------------------------------------------------------

#[test]
fn hashes_ignore_history_and_move_number() {
    let mv = Multiverse::standard_start();
    let mut other = mv.clone();
    other.position_history = vec![1, 2, 3];
    other.fullmove_number = 40;
    assert_eq!(zobrist(&mv), zobrist(&other));
    let moved = apply_turn(&mv, &vec![e2e4()]);
    assert_ne!(zobrist(&mv), zobrist(&moved));
    let mut side = mv.clone();
    side.global_to_move = Color::Black;
    assert_ne!(zobrist(&mv), zobrist(&side));
}

// ----- search --------------------------------------------------------------------

#[test]
fn search_returns_a_legal_plan() {
    let mv = Multiverse::standard_start();
    let res = search(&mv, 1);
    assert_eq!(res.depth, 1);
    let best = res.best.unwrap();
    assert!(generate_legal_turn_plans(&mv).contains(&best));
    assert!(res.nodes > 0);
}

#[test]
fn search_without_time_completes_nothing() {
    let mv = Multiverse::standard_start();
    let res = search_with_timeout(&mv, 4, 0);
    assert_eq!(res.depth, 0);
    assert!(res.best.is_none());
}

#[test]
fn search_of_a_mated_side_reports_no_plan() {
    let mut b = Board::empty(Color::Black);
    b.set(7, 7, Some(Piece::new(PieceKind::King, Color::Black)));
    b.set(6, 6, Some(Piece::new(PieceKind::Pawn, Color::Black)));
    b.set(7, 6, Some(Piece::new(PieceKind::Pawn, Color::Black)));
    b.set(4, 7, Some(Piece::new(PieceKind::Rook, Color::White)));
    b.set(4, 0, Some(Piece::new(PieceKind::King, Color::White)));
    let mv = single(b, Color::Black);
    let res = search(&mv, 2);
    assert!(res.best.is_none());
    assert_eq!(res.score, -MATE);
    // Every iteration completes at once: the result is that of depth 2.
    assert_eq!(res.depth, 2);
}

#[test]
fn deep_searches_of_a_mated_side_reach_their_depth() {
    let mut b = Board::empty(Color::Black);
    b.set(7, 7, Some(Piece::new(PieceKind::King, Color::Black)));
    b.set(6, 6, Some(Piece::new(PieceKind::Pawn, Color::Black)));
    b.set(7, 6, Some(Piece::new(PieceKind::Pawn, Color::Black)));
    b.set(4, 7, Some(Piece::new(PieceKind::Rook, Color::White)));
    b.set(4, 0, Some(Piece::new(PieceKind::King, Color::White)));
    let mv = single(b, Color::Black);
    let res = search(&mv, 20_000);
    assert!(res.best.is_none());
    assert_eq!(res.score, -MATE);
    assert_eq!(res.depth, 20_000);
}

// ----- game status ---------------------------------------------------------------

#[test]
fn game_status_tells_mate_from_stalemate() {
    assert_eq!(game_status(&Multiverse::standard_start()), GameStatus::Ongoing);
    let mut b = Board::empty(Color::Black);
    b.set(7, 7, Some(Piece::new(PieceKind::King, Color::Black)));
    b.set(6, 6, Some(Piece::new(PieceKind::Pawn, Color::Black)));
    b.set(7, 6, Some(Piece::new(PieceKind::Pawn, Color::Black)));
    b.set(4, 7, Some(Piece::new(PieceKind::Rook, Color::White)));
    b.set(4, 0, Some(Piece::new(PieceKind::King, Color::White)));
    assert_eq!(game_status(&single(b, Color::Black)), GameStatus::Checkmate);
    // Black king in the corner, not attacked, every square around it covered.
    let mut s = Board::empty(Color::Black);
    s.set(7, 7, Some(Piece::new(PieceKind::King, Color::Black)));
    s.set(5, 6, Some(Piece::new(PieceKind::Queen, Color::White)));
    s.set(0, 0, Some(Piece::new(PieceKind::King, Color::White)));
    assert_eq!(game_status(&single(s, Color::Black)), GameStatus::Stalemate);
}

#[test]
fn only_listed_turns_pass() {
    let mv = Multiverse::standard_start();
    assert!(is_listed_turn(&mv, &vec![e2e4()]));
    let mut wrong = e2e4();
    wrong.kind = MoveKind::Normal;
    assert!(!is_listed_turn(&mv, &vec![wrong]));
    assert!(!is_listed_turn(&mv, &vec![]));
    assert!(!is_listed_turn(&mv, &vec![e2e4(), e2e4()]));
}

// ----- rules fixed by the documentation ----------------------------------------

#[test]
fn a_minor_piece_on_each_side_is_not_a_draw() {
    let mut b = kings(Color::White);
    b.set(1, 0, Some(Piece::new(PieceKind::Knight, Color::White)));
    b.set(2, 7, Some(Piece::new(PieceKind::Bishop, Color::Black)));
    assert!(!single(b, Color::White).is_insufficient_material());
    let mut b = kings(Color::White);
    b.set(2, 7, Some(Piece::new(PieceKind::Bishop, Color::Black)));
    assert!(single(b, Color::White).is_insufficient_material());
}

#[test]
fn pawns_double_step_only_from_their_starting_rank() {
    let mut b = kings(Color::Black);
    b.set(3, 3, Some(Piece::new(PieceKind::Pawn, Color::Black)));
    let mv = single(b, Color::Black);
    let moves = generate_pseudo_moves(&mv, Color::Black);
    assert!(moves.iter().all(|m| m.kind != MoveKind::DoublePush));
    assert!(moves.iter().any(|m| m.from.x == 3 && m.from.y == 3 && m.to.y == 2));
    let mut b = kings(Color::Black);
    b.set(3, 6, Some(Piece::new(PieceKind::Pawn, Color::Black)));
    let mv = single(b, Color::Black);
    let moves = generate_pseudo_moves(&mv, Color::Black);
    assert!(moves
        .iter()
        .any(|m| m.kind == MoveKind::DoublePush && m.from.y == 6 && m.to.y == 4));
}

fn three_timelines(extra: Option<(i32, Piece)>) -> Multiverse {
    let mut mv = single(kings(Color::White), Color::White);
    for l in 1..3 {
        let mut b = kings(Color::White);
        if let Some((el, p)) = extra {
            if el == l {
                b.set(0, 3, Some(p));
            }
        }
        mv.timelines.insert(
            l,
            Timeline {
                t_start: 0,
                boards: Arc::new(vec![b]),
                creator: Some(Color::White),
            },
        );
    }
    mv.next_white_l = 3;
    mv
}

#[test]
fn hash_skips_the_boards_of_inactive_timelines() {
    let plain = three_timelines(None);
    assert!(plain.is_active(1));
    assert!(!plain.is_active(2));
    let rook = Piece::new(PieceKind::Rook, Color::White);
    assert_eq!(zobrist(&three_timelines(Some((2, rook)))), zobrist(&plain));
    assert_ne!(zobrist(&three_timelines(Some((1, rook)))), zobrist(&plain));
}

#[test]
fn a_search_of_depth_zero_scores_nothing() {
    let r = search(&Multiverse::standard_start(), 0);
    assert_eq!(r.depth, 0);
    assert!(r.best.is_none());
    assert_eq!(r.score, 0);
}

#[test]
fn turning_the_board_over_negates_the_evaluation() {
    let pieces: Vec<(i8, i8, PieceKind, Color)> = vec![
        (4, 0, PieceKind::King, Color::White),
        (3, 1, PieceKind::Pawn, Color::White),
        (4, 1, PieceKind::Pawn, Color::White),
        (5, 1, PieceKind::Pawn, Color::White),
        (0, 6, PieceKind::Rook, Color::White),
        (2, 0, PieceKind::Bishop, Color::White),
        (5, 0, PieceKind::Bishop, Color::White),
        (4, 7, PieceKind::King, Color::Black),
        (1, 7, PieceKind::Knight, Color::Black),
        (0, 3, PieceKind::Pawn, Color::Black),
        (7, 4, PieceKind::Pawn, Color::Black),
    ];
    let mut b = Board::empty(Color::White);
    let mut mb = Board::empty(Color::Black);
    for &(x, y, k, c) in &pieces {
        b.set(x, y, Some(Piece::new(k, c)));
        mb.set(x, 7 - y, Some(Piece::new(k, c.flip())));
    }
    let e = evaluate(&single(b, Color::White));
    assert_ne!(e, 0);
    assert_eq!(evaluate(&single(mb, Color::Black)), -e);
}

#[test]
fn turns_restart_or_advance_the_move_counters() {
    let mut start = Multiverse::standard_start();
    start.halfmove_clock = 7;
    let after = apply_turn(&start, &vec![e2e4()]);
    assert_eq!(after.halfmove_clock, 0);
    assert_eq!(after.fullmove_number, 1);
    let knight = mk(
        Coord::new(0, 1, 6, 7),
        Coord::new(0, 1, 5, 5),
        Color::Black,
        MoveKind::Normal,
        false,
    );
    let later = apply_turn(&after, &vec![knight]);
    assert_eq!(later.halfmove_clock, 1);
    assert_eq!(later.fullmove_number, 2);
}
