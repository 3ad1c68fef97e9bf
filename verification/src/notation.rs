//! Plain-text notation of coordinates, moves and turns, and reading a player's turn.
//!
//! A coordinate prints as `(L0T0)e2`; a move as `(L0T0)e2 -> (L0T0)e4` (`x` in place of
//! the arrow for a capture, `=Q` and the like after a promotion, `O-O` / `O-O-O` for
//! castling); a turn joins its moves with `; `. A player types the moves of a turn
//! separated by `;`, each as two coordinates.

use vstd::prelude::*;

use crate::board::{board_get, on_board, Board};
use crate::moves::{Move, MoveKind, TurnPlan};
use crate::multiverse::{board_at, piece_at, Multiverse};
use crate::text::{
    chars_of, digit_char, find_char, find_in, int_text, is_digit, is_ws, lemma_digit_char,
    lemma_find_after_plain, lemma_int_text, lemma_without_absent, nat_digits, parse_i32,
    parse_i32_text, push_int, remove_char, slice_chars, split_on, split_words, string_from_chars,
    trim, trim_chars, trim_end, trim_start, without_char, words,
};
use crate::types::{kind_letter, BoardId, Color, Coord, PieceKind};
use crate::multiverse::MultiverseView;

verus! {

// ---------------------------------------------------------------------------
// Printing
// ---------------------------------------------------------------------------

/// The file letter of file `x`: the byte `b'a' + x`.
pub open spec fn file_char(x: i8) -> char {
    ((97 + (x as u8)) as u8) as char
}

/// A coordinate whose file letter and rank number can be formed.
pub open spec fn printable(c: Coord) -> bool {
    (c.x as u8) + 97 <= 255 && c.y < 127
}

/// `(L<l>T<t>)<file><rank>`.
pub open spec fn coord_text(c: Coord) -> Seq<char> {
    seq!['(', 'L'] + int_text(c.l as int) + seq!['T'] + int_text(c.t as int) + seq![')', file_char(c.x)]
        + int_text(c.y + 1)
}

fn push_coord(out: &mut Vec<char>, c: Coord)
    requires
        printable(c),
    ensures
        final(out)@ == old(out)@ + coord_text(c),
{
    out.push('(');
    out.push('L');
    push_int(out, c.l as i64);
    out.push('T');
    push_int(out, c.t as i64);
    out.push(')');
    let f: u8 = 97u8 + c.x as u8;
    out.push(f as char);
    push_int(out, (c.y + 1) as i64);
    proof {
        assert(final(out)@ =~= old(out)@ + coord_text(c));
    }
}

/// A coordinate as `(L<l>T<t>)<file><rank>`.
pub fn fmt_coord(c: Coord) -> (s: String)
    requires
        printable(c),
    ensures
        s@ == coord_text(c),
{
    let mut out: Vec<char> = Vec::new();
    push_coord(&mut out, c);
    proof {
        assert(out@ =~= coord_text(c));
    }
    string_from_chars(&out)
}

/// `(L<l>T<t>)`: the label of a board.
pub open spec fn board_label(b: BoardId) -> Seq<char> {
    seq!['(', 'L'] + int_text(b.l as int) + seq!['T'] + int_text(b.t as int) + seq![')']
}

impl BoardId {
    /// The board's label, `(L<l>T<t>)`.
    pub fn to_text(&self) -> (s: String)
        ensures
            s@ == board_label(*self),
    {
        let mut out: Vec<char> = Vec::new();
        out.push('(');
        out.push('L');
        push_int(&mut out, self.l as i64);
        out.push('T');
        push_int(&mut out, self.t as i64);
        out.push(')');
        proof {
            assert(out@ =~= board_label(*self));
        }
        string_from_chars(&out)
    }
}

impl Coord {
    /// The coordinate as text, `(L<l>T<t>)<file><rank>`, as `fmt_coord` writes it.
    pub fn to_text(&self) -> (s: String)
        requires
            printable(*self),
        ensures
            s@ == coord_text(*self),
    {
        fmt_coord(*self)
    }
}

/// A move that can be printed: castling, or both coordinates printable.
pub open spec fn move_printable(m: Move) -> bool {
    m.kind == MoveKind::CastleKing || m.kind == MoveKind::CastleQueen || (printable(m.from)
        && printable(m.to))
}

/// The text of a move.
pub open spec fn move_text(m: Move) -> Seq<char> {
    if m.kind == MoveKind::CastleKing {
        seq!['O', '-', 'O']
    } else if m.kind == MoveKind::CastleQueen {
        seq!['O', '-', 'O', '-', 'O']
    } else {
        coord_text(m.from) + seq![' '] + (if m.capture {
            seq!['x']
        } else {
            seq!['-', '>']
        }) + seq![' '] + coord_text(m.to) + match m.promotion {
            Some(k) => seq!['=', kind_letter(k)],
            None => Seq::<char>::empty(),
        }
    }
}

fn push_move(out: &mut Vec<char>, m: &Move)
    requires
        move_printable(*m),
    ensures
        final(out)@ == old(out)@ + move_text(*m),
{
    match m.kind {
        MoveKind::CastleKing => {
            out.push('O');
            out.push('-');
            out.push('O');
        },
        MoveKind::CastleQueen => {
            out.push('O');
            out.push('-');
            out.push('O');
            out.push('-');
            out.push('O');
        },
        _ => {
            push_coord(out, m.from);
            out.push(' ');
            if m.capture {
                out.push('x');
            } else {
                out.push('-');
                out.push('>');
            }
            out.push(' ');
            push_coord(out, m.to);
            if let Some(k) = m.promotion {
                out.push('=');
                out.push(k.letter());
            }
        },
    }
    proof {
        assert(final(out)@ =~= old(out)@ + move_text(*m));
    }
}

/// A move as text: `O-O`, `O-O-O`, or `<from> -> <to>` (`x` for a capture) with `=K`
/// for a promotion to kind K.
pub fn fmt_move(m: &Move) -> (s: String)
    requires
        move_printable(*m),
    ensures
        s@ == move_text(*m),
{
    let mut out: Vec<char> = Vec::new();
    push_move(&mut out, m);
    proof {
        assert(out@ =~= move_text(*m));
    }
    string_from_chars(&out)
}

/// The moves of a plan, joined by `; `.
pub open spec fn turn_text(plan: Seq<Move>) -> Seq<char>
    decreases plan.len(),
{
    if plan.len() == 0 {
        seq![]
    } else if plan.len() == 1 {
        move_text(plan[0])
    } else {
        turn_text(plan.drop_last()) + seq![';', ' '] + move_text(plan.last())
    }
}

/// A turn as text: its moves joined by `; `.
pub fn fmt_turn(plan: &TurnPlan) -> (s: String)
    requires
        forall|i: int| 0 <= i < plan@.len() ==> move_printable(#[trigger] plan@[i]),
    ensures
        s@ == turn_text(plan@),
{
    let mut out: Vec<char> = Vec::new();
    let mut i: usize = 0;
    while i < plan.len()
        invariant
            i <= plan@.len(),
            forall|k: int| 0 <= k < plan@.len() ==> move_printable(#[trigger] plan@[k]),
            out@ == turn_text(plan@.take(i as int)),
        decreases plan@.len() - i,
    {
        proof {
            assert(plan@.take(i + 1).drop_last() =~= plan@.take(i as int));
            assert(plan@.take(i + 1).last() == plan@[i as int]);
        }
        if i > 0 {
            out.push(';');
            out.push(' ');
        }
        push_move(&mut out, &plan[i]);
        proof {
            if i == 0 {
                assert(out@ =~= turn_text(plan@.take(1)));
            } else {
                assert(out@ =~= turn_text(plan@.take(i + 1)));
            }
        }
        i = i + 1;
    }
    proof {
        assert(plan@.take(plan@.len() as int) =~= plan@);
    }
    string_from_chars(&out)
}

// ---------------------------------------------------------------------------
// Reading
// ---------------------------------------------------------------------------

/// Reading `s` as a coordinate, up to the board label: the label between `(` and
/// the first `)` after trimming, with spaces removed, and the text after it.
pub open spec fn label_parts(s: Seq<char>) -> Option<(Seq<char>, Seq<char>)> {
    let t = trim(s);
    if t.len() == 0 || t[0] != '(' {
        None
    } else {
        let u = t.drop_first();
        match find_char(u, ')') {
            None => None,
            Some(k) => Some((without_char(u.take(k), ' '), u.skip(k + 1))),
        }
    }
}

/// The board label names its time before its timeline (`T` ahead of `L`): reading
/// it would slice the text backwards.
pub open spec fn coord_breaks(s: Seq<char>) -> bool {
    match label_parts(s) {
        None => false,
        Some((p, _)) => match (find_char(p, 'L'), find_char(p, 'T')) {
            (Some(li), Some(ti)) => ti < li + 1,
            _ => false,
        },
    }
}

pub open spec fn is_file(c: char) -> bool {
    'a' as u32 <= c as u32 <= 'h' as u32
}

pub open spec fn is_rank(c: char) -> bool {
    '1' as u32 <= c as u32 <= '8' as u32
}

/// The coordinate that `s` spells: `(L<l>T<t>)<file><rank>`, blanks allowed around it
/// and spaces inside the label; `None` when it spells none.
pub open spec fn coord_parse(s: Seq<char>) -> Option<Coord> {
    match label_parts(s) {
        None => None,
        Some((p, rest)) => match (find_char(p, 'L'), find_char(p, 'T')) {
            (Some(li), Some(ti)) => if ti < li + 1 {
                None
            } else {
                match (parse_i32_text(p.subrange(li + 1, ti)), parse_i32_text(p.skip(ti + 1))) {
                    (Some(l), Some(t)) => {
                        let r = trim(rest);
                        if r.len() >= 2 && is_file(r[0]) && is_rank(r[1]) {
                            Some(
                                Coord {
                                    l,
                                    t,
                                    x: (r[0] as u32 - 97) as i8,
                                    y: (r[1] as u32 - 49) as i8,
                                },
                            )
                        } else {
                            None
                        }
                    },
                    _ => None,
                }
            },
            _ => None,
        },
    }
}

/// Text that starts and ends with a non-blank character is its own trimmed form.
proof fn lemma_trim_plain(s: Seq<char>)
    requires
        s.len() > 0,
        !is_ws(s[0]),
        !is_ws(s.last()),
    ensures
        trim(s) == s,
{
    assert(trim_start(s) == s);
    assert(trim_end(s) == s);
}

/// Printing the coordinate of a board square and reading the text back gives the
/// coordinate again.
pub proof fn lemma_coord_round_trip(c: Coord)
    requires
        on_board(c.x as int, c.y as int),
    ensures
        printable(c),
        !coord_breaks(coord_text(c)),
        coord_parse(coord_text(c)) == Some(c),
{
    let a = int_text(c.l as int);
    let b = int_text(c.t as int);
    let f = file_char(c.x);
    let r = int_text(c.y + 1);
    lemma_int_text(c.l as int);
    lemma_int_text(c.t as int);
    lemma_digit_char(c.y + 1);
    assert(r =~= seq![digit_char(c.y + 1)]);
    assert(f as u32 == 97 + c.x);
    let s = coord_text(c);
    assert(s =~= seq!['(', 'L'] + a + seq!['T'] + b + seq![')', f] + r);
    lemma_trim_plain(s);
    let u = s.drop_first();
    let w = seq!['L'] + a + seq!['T'] + b;
    let tail = seq![')', f] + r;
    assert(u =~= w + tail);
    assert forall|k: int| 0 <= k < w.len() implies w[k] != ')' && w[k] != ' ' by {
        if 1 <= k < 1 + a.len() {
            assert(w[k] == a[k - 1]);
        } else if k >= 2 + a.len() {
            assert(w[k] == b[k - 2 - a.len()]);
        }
    }
    lemma_find_after_plain(w, tail, ')');
    let k = w.len() as int;
    assert(u.take(k) =~= w);
    lemma_without_absent(w, ' ');
    let rest = seq![f] + r;
    assert(u.skip(k + 1) =~= rest);
    let la = seq!['L'] + a;
    assert forall|j: int| 0 <= j < la.len() implies la[j] != 'T' by {
        if j >= 1 {
            assert(la[j] == a[j - 1]);
        }
    }
    assert(w =~= la + (seq!['T'] + b));
    lemma_find_after_plain(la, seq!['T'] + b, 'T');
    assert(find_char(w, 'L') == Some(0int));
    assert(w.subrange(1, 1 + a.len() as int) =~= a);
    assert(w.skip(2 + a.len() as int) =~= b);
    lemma_trim_plain(rest);
    assert(rest[1] == digit_char(c.y + 1));
}

/// Reads a coordinate; `None` (outer) where the label would be sliced backwards.
fn read_coord(s: &Vec<char>) -> (r: Option<Option<Coord>>)
    ensures
        r is None <==> coord_breaks(s@),
        r matches Some(c) ==> c == coord_parse(s@),
{
    let t = trim_chars(s);
    if t.len() == 0 || t[0] != '(' {
        return Some(None);
    }
    let u = slice_chars(&t, 1, t.len());
    proof {
        assert(u@ =~= t@.drop_first());
    }
    let k = match find_in(&u, ')') {
        None => {
            return Some(None);
        },
        Some(k) => k,
    };
    proof {
        crate::text::lemma_find_char(u@, ')');
    }
    let head = slice_chars(&u, 0, k);
    let p = remove_char(&head, ' ');
    let rest = slice_chars(&u, k + 1, u.len());
    proof {
        assert(head@ =~= u@.take(k as int));
        assert(rest@ =~= u@.skip(k + 1));
    }
    let li = match find_in(&p, 'L') {
        None => {
            return Some(None);
        },
        Some(i) => i,
    };
    let ti = match find_in(&p, 'T') {
        None => {
            return Some(None);
        },
        Some(i) => i,
    };
    proof {
        crate::text::lemma_find_char(p@, 'L');
        crate::text::lemma_find_char(p@, 'T');
    }
    if ti < li + 1 {
        return None;
    }
    let l_str = slice_chars(&p, li + 1, ti);
    let t_str = slice_chars(&p, ti + 1, p.len());
    proof {
        assert(t_str@ =~= p@.skip(ti + 1));
    }
    let l = match parse_i32(&l_str) {
        None => {
            return Some(None);
        },
        Some(v) => v,
    };
    let tt = match parse_i32(&t_str) {
        None => {
            return Some(None);
        },
        Some(v) => v,
    };
    let r = trim_chars(&rest);
    if r.len() < 2 {
        return Some(None);
    }
    let file = r[0] as u32;
    let rank = r[1] as u32;
    if file < 97 || file > 104 || rank < 49 || rank > 56 {
        return Some(None);
    }
    Some(Some(Coord { l, t: tt, x: (file - 97) as i8, y: (rank - 49) as i8 }))
}

/// Parses a coordinate such as `(L0T0)e2`; `None` for text that spells none, a label
/// naming its time before its timeline among them.
pub fn parse_coord(s: &str) -> (r: Option<Coord>)
    ensures
        r == coord_parse(s@),
{
    let cs = chars_of(s);
    match read_coord(&cs) {
        Some(r) => r,
        None => None,
    }
}

/// The words of a move that matter: all but the separators `->` and `x`.
pub open spec fn move_words(ws: Seq<Seq<char>>) -> Seq<Seq<char>>
    decreases ws.len(),
{
    if ws.len() == 0 {
        seq![]
    } else {
        let rest = move_words(ws.drop_last());
        let w = ws.last();
        if w == seq!['-', '>'] || w == seq!['x'] {
            rest
        } else {
            rest.push(w)
        }
    }
}

/// The move a player's text names, for `color`, on the multiverse `mv`: two
/// coordinates, the first on a board holding a piece of `color`. A king moving two
/// files along its home rank on one board castles; nothing else gets a special kind
/// or a promotion. The move captures when the destination holds a piece.
pub open spec fn user_move(mv: MultiverseView, s: Seq<char>, color: Color) -> Option<Move> {
    let parts = move_words(words(s));
    if parts.len() != 2 {
        None
    } else {
        match (coord_parse(parts[0]), coord_parse(parts[1])) {
            (Some(from), Some(to)) => match board_at(mv, from.l as int, from.t as int) {
                None => None,
                Some(sb) => match board_get(sb, from.x as int, from.y as int) {
                    None => None,
                    Some(piece) => if piece.color != color {
                        None
                    } else {
                        let home_y: int = if color == Color::White {
                            0
                        } else {
                            7
                        };
                        let castles = piece.kind == PieceKind::King && from.x == 4 && from.y == home_y
                            && from.l == to.l && from.t == to.t && to.y == home_y && (to.x - from.x
                            == 2 || from.x - to.x == 2);
                        Some(
                            Move {
                                from,
                                to,
                                promotion: None,
                                capture: piece_at(mv, to.l as int, to.t as int, to.x as int, to.y as int) is Some,
                                mover: color,
                                kind: if castles {
                                    if to.x == 6 {
                                        MoveKind::CastleKing
                                    } else {
                                        MoveKind::CastleQueen
                                    }
                                } else {
                                    MoveKind::Normal
                                },
                            },
                        )
                    },
                },
            },
            _ => None,
        }
    }
}

/// Reading the move text would slice a coordinate backwards.
pub open spec fn move_breaks(s: Seq<char>) -> bool {
    let parts = move_words(words(s));
    parts.len() == 2 && (coord_breaks(parts[0]) || (coord_parse(parts[0]) is Some && coord_breaks(
        parts[1],
    )))
}

fn keep_move_words(ws: &Vec<Vec<char>>) -> (r: Vec<Vec<char>>)
    ensures
        r@.len() == move_words(ws@.map_values(|w: Vec<char>| w@)).len(),
        forall|i: int| 0 <= i < r@.len() ==> (#[trigger] r@[i])@ == move_words(ws@.map_values(|w: Vec<char>| w@))[i],
{
    let ghost wv = ws@.map_values(|w: Vec<char>| w@);
    let mut out: Vec<Vec<char>> = Vec::new();
    let mut i: usize = 0;
    while i < ws.len()
        invariant
            i <= ws@.len(),
            wv == ws@.map_values(|w: Vec<char>| w@),
            out@.len() == move_words(wv.take(i as int)).len(),
            forall|k: int| 0 <= k < out@.len() ==> (#[trigger] out@[k])@ == move_words(wv.take(i as int))[k],
        decreases ws@.len() - i,
    {
        proof {
            assert(wv.take(i + 1).drop_last() =~= wv.take(i as int));
            assert(wv.take(i + 1).last() == ws@[i as int]@);
        }
        let w = &ws[i];
        let is_arrow = w.len() == 2 && w[0] == '-' && w[1] == '>';
        let is_x = w.len() == 1 && w[0] == 'x';
        proof {
            assert(is_arrow == (w@ == seq!['-', '>'])) by {
                if is_arrow {
                    assert(w@ =~= seq!['-', '>']);
                }
            }
            assert(is_x == (w@ == seq!['x'])) by {
                if is_x {
                    assert(w@ =~= seq!['x']);
                }
            }
        }
        if !is_arrow && !is_x {
            let c = slice_chars(w, 0, w.len());
            proof {
                assert(c@ =~= w@);
            }
            out.push(c);
        }
        i = i + 1;
    }
    proof {
        assert(wv.take(ws@.len() as int) =~= wv);
    }
    out
}

/// Reads one move; `None` (outer) where a coordinate would be sliced backwards.
fn read_move(mv: &Multiverse, s: &Vec<char>, color: Color) -> (r: Option<Option<Move>>)
    ensures
        r is None <==> move_breaks(s@),
        r matches Some(m) ==> m == user_move(mv@, s@, color),
{
    let ws = split_words(s);
    proof {
        assert(ws@.map_values(|w: Vec<char>| w@) =~= words(s@));
    }
    let parts = keep_move_words(&ws);
    if parts.len() != 2 {
        return Some(None);
    }
    let from = match read_coord(&parts[0]) {
        None => {
            return None;
        },
        Some(None) => {
            return Some(None);
        },
        Some(Some(c)) => c,
    };
    let to = match read_coord(&parts[1]) {
        None => {
            return None;
        },
        Some(None) => {
            return Some(None);
        },
        Some(Some(c)) => c,
    };
    let src_board = match mv.board(from.board()) {
        None => {
            return Some(None);
        },
        Some(b) => b,
    };
    let piece = match src_board.get(from.x, from.y) {
        None => {
            return Some(None);
        },
        Some(p) => p,
    };
    if piece.color != color {
        return Some(None);
    }
    let dst_piece = match mv.board(to.board()) {
        Some(b) => b.get(to.x, to.y),
        None => None,
    };
    let home_y: i8 = if color == Color::White {
        0
    } else {
        7
    };
    let castles = piece.kind == PieceKind::King && from.x == 4 && from.y == home_y && from.l == to.l
        && from.t == to.t && to.y == home_y && (to.x - from.x == 2 || from.x - to.x == 2);
    let kind = if castles {
        if to.x == 6 {
            MoveKind::CastleKing
        } else {
            MoveKind::CastleQueen
        }
    } else {
        MoveKind::Normal
    };
    Some(
        Some(
            Move {
                from,
                to,
                promotion: None,
                capture: dst_piece.is_some(),
                mover: color,
                kind,
            },
        ),
    )
}

/// Parses one move of a player's turn: two coordinates, optionally separated by `->`
/// or `x`; `None` when the text names no move.
pub fn parse_user_move(mv: &Multiverse, s: &str, color: Color) -> (r: Option<Move>)
    ensures
        r == user_move(mv@, s@, color),
{
    proof {
        lemma_breaking_move_is_none(mv@, s@, color);
    }
    let cs = chars_of(s);
    match read_move(mv, &cs, color) {
        Some(r) => r,
        None => None,
    }
}

/// The moves of the pieces `ps` of a turn text: blank pieces are skipped; `None` when
/// some piece names no move.
pub open spec fn user_moves(mv: MultiverseView, ps: Seq<Seq<char>>, color: Color) -> Option<Seq<Move>>
    decreases ps.len(),
{
    if ps.len() == 0 {
        Some(seq![])
    } else {
        let t = trim(ps[0]);
        if t.len() == 0 {
            user_moves(mv, ps.drop_first(), color)
        } else {
            match user_move(mv, t, color) {
                None => None,
                Some(m) => match user_moves(mv, ps.drop_first(), color) {
                    None => None,
                    Some(rest) => Some(seq![m] + rest),
                },
            }
        }
    }
}

/// Reading the pieces would slice a coordinate backwards before giving up.
pub open spec fn moves_break(mv: MultiverseView, ps: Seq<Seq<char>>, color: Color) -> bool
    decreases ps.len(),
{
    if ps.len() == 0 {
        false
    } else {
        let t = trim(ps[0]);
        if t.len() == 0 {
            moves_break(mv, ps.drop_first(), color)
        } else {
            move_breaks(t) || (user_move(mv, t, color) is Some && moves_break(mv, ps.drop_first(), color))
        }
    }
}

/// The turn a player's text names: its moves separated by `;`; `None` when a piece
/// names no move or there is no move at all.
pub open spec fn user_turn(mv: MultiverseView, s: Seq<char>, color: Color) -> Option<Seq<Move>> {
    match user_moves(mv, split_on(s, ';'), color) {
        Some(p) => if p.len() == 0 {
            None
        } else {
            Some(p)
        },
        None => None,
    }
}

/// Reading the turn text would slice a coordinate backwards.
pub open spec fn turn_breaks(mv: MultiverseView, s: Seq<char>, color: Color) -> bool {
    moves_break(mv, split_on(s, ';'), color)
}

/// A coordinate label that names its time before its timeline spells no coordinate.
proof fn lemma_breaking_coord_is_none(s: Seq<char>)
    ensures
        coord_breaks(s) ==> coord_parse(s) is None,
{
}

/// A move text with such a label names no move.
proof fn lemma_breaking_move_is_none(mv: MultiverseView, s: Seq<char>, color: Color)
    ensures
        move_breaks(s) ==> user_move(mv, s, color) is None,
{
    let parts = move_words(words(s));
    if parts.len() == 2 {
        lemma_breaking_coord_is_none(parts[0]);
        lemma_breaking_coord_is_none(parts[1]);
    }
}

/// Turn pieces with such a label name no moves.
proof fn lemma_breaking_moves_are_none(mv: MultiverseView, ps: Seq<Seq<char>>, color: Color)
    ensures
        moves_break(mv, ps, color) ==> user_moves(mv, ps, color) is None,
    decreases ps.len(),
{
    if ps.len() > 0 {
        lemma_breaking_moves_are_none(mv, ps.drop_first(), color);
        lemma_breaking_move_is_none(mv, trim(ps[0]), color);
    }
}

/// Reads a turn; `None` (outer) where a coordinate would be sliced backwards.
fn read_turn(mv: &Multiverse, s: &Vec<char>, color: Color) -> (r: Option<Option<TurnPlan>>)
    ensures
        r is None <==> turn_breaks(mv@, s@, color),
        r matches Some(Some(p)) ==> user_turn(mv@, s@, color) == Some(p@),
        r matches Some(None) ==> user_turn(mv@, s@, color) is None,
{
    let pieces = crate::text::split_chars(s, ';');
    let ghost ps = split_on(s@, ';');
    let mut plan: Vec<Move> = Vec::new();
    let mut i: usize = 0;
    proof {
        assert(ps.skip(0) =~= ps);
        if let Some(r) = user_moves(mv@, ps, color) {
            assert(plan@ + r =~= r);
        }
    }
    while i < pieces.len()
        invariant
            i <= pieces@.len(),
            pieces@.len() == ps.len(),
            ps == split_on(s@, ';'),
            forall|k: int| 0 <= k < pieces@.len() ==> (#[trigger] pieces@[k])@ == ps[k],
            moves_break(mv@, ps, color) == moves_break(mv@, ps.skip(i as int), color),
            user_moves(mv@, ps, color) == match user_moves(mv@, ps.skip(i as int), color) {
                Some(r) => Some(plan@ + r),
                None => None,
            },
        decreases pieces@.len() - i,
    {
        let ghost rest = ps.skip(i as int);
        proof {
            assert(rest[0] == pieces@[i as int]@);
            assert(rest.drop_first() =~= ps.skip(i + 1));
        }
        let t = trim_chars(&pieces[i]);
        if t.len() > 0 {
            match read_move(mv, &t, color) {
                None => {
                    return None;
                },
                Some(None) => {
                    return Some(None);
                },
                Some(Some(m)) => {
                    proof {
                        match user_moves(mv@, ps.skip(i + 1), color) {
                            Some(r) => {
                                assert(plan@ + (seq![m] + r) =~= plan@.push(m) + r);
                            },
                            None => {},
                        }
                    }
                    plan.push(m);
                },
            }
        }
        i = i + 1;
    }
    proof {
        assert(ps.skip(ps.len() as int) =~= Seq::<Seq<char>>::empty());
        assert(plan@ + Seq::<Move>::empty() =~= plan@);
    }
    if plan.len() == 0 {
        Some(None)
    } else {
        Some(Some(plan))
    }
}

/// Parses a player's turn: moves separated by `;`, blank pieces skipped; `None` when
/// some piece names no move, or none is given.
pub fn parse_user_turn(mv: &Multiverse, s: &str, color: Color) -> (r: Option<TurnPlan>)
    ensures
        r matches Some(p) ==> user_turn(mv@, s@, color) == Some(p@),
        r is None ==> user_turn(mv@, s@, color) is None,
{
    proof {
        lemma_breaking_moves_are_none(mv@, split_on(s@, ';'), color);
    }
    let cs = chars_of(s);
    match read_turn(mv, &cs, color) {
        Some(r) => r,
        None => None,
    }
}

} // verus!
