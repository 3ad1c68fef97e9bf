//! The multiverse: timelines of board snapshots keyed by timeline index.

use std::collections::BTreeMap;
use std::sync::Arc;

use vstd::prelude::*;

use crate::board::{board_get, board_text, on_board, sq, Board, CastleSide};
use crate::text::{int_text, push_int, push_str, string_from_chars};
use crate::types::{BoardId, Color, Piece, PieceKind};
use vstd::std_specs::btree::{increasing_seq, spec_keys_iter};

verus! {

broadcast use vstd::std_specs::btree::group_btree_axioms, vstd::laws_cmp::group_laws_cmp;

/// One timeline: the boards at times `t_start .. t_start + boards.len()`.
#[derive(Clone, Debug)]
pub struct Timeline {
    pub t_start: i32,
    /// Shared between copies of the multiverse; copied when one copy changes it.
    pub boards: Arc<Vec<Board>>,
    /// The color that created the timeline; `None` for the root timeline.
    pub creator: Option<Color>,
}

/// What a timeline holds, as mathematical values.
#[verifier::ext_equal]
pub struct TimelineView {
    pub t_start: i32,
    pub boards: Seq<Board>,
    pub creator: Option<Color>,
}

impl View for Timeline {
    type V = TimelineView;

    open spec fn view(&self) -> TimelineView {
        TimelineView { t_start: self.t_start, boards: self.boards@, creator: self.creator }
    }
}

/// The time of the last board of a timeline.
pub open spec fn last_t(tl: TimelineView) -> int {
    tl.t_start + tl.boards.len() - 1
}

/// The board of `tl` at time `t`, if any.
pub open spec fn tl_board(tl: TimelineView, t: int) -> Option<Board> {
    if tl.t_start <= t < tl.t_start + tl.boards.len() {
        Some(tl.boards[t - tl.t_start])
    } else {
        None
    }
}

/// A timeline whose times all fit in `i32`, with at least one board.
pub open spec fn tl_wf(tl: TimelineView) -> bool {
    &&& 1 <= tl.boards.len()
    &&& tl.t_start + tl.boards.len() - 1 <= i32::MAX
}

impl Timeline {
    /// The time of the last board.
    pub fn latest_t(&self) -> (t: i32)
        requires
            tl_wf(self@),
        ensures
            t == last_t(self@),
    {
        (self.t_start as i64 + self.boards.len() as i64 - 1) as i32
    }

    /// The board at time `t`, if the timeline has one.
    pub fn get_board(&self, t: i32) -> (r: Option<&Board>)
        ensures
            r matches Some(b) ==> tl_board(self@, t as int) == Some(*b),
            r is None ==> tl_board(self@, t as int) is None,
    {
        if t < self.t_start {
            return None;
        }
        let i: usize = (t as i64 - self.t_start as i64) as usize;
        if i >= self.boards.len() {
            None
        } else {
            Some(&self.boards[i])
        }
    }

    /// The board at time `t` for in-place change, if the timeline has one.
    pub fn get_board_mut(&mut self, t: i32) -> (r: Option<&mut Board>)
        ensures
            r matches Some(b) ==> {
                &&& tl_board(old(self)@, t as int) == Some(*b)
                &&& final(self).boards@ == old(self).boards@.update(
                    t - old(self).t_start,
                    *final(b),
                )
            },
            r is None ==> tl_board(old(self)@, t as int) is None && final(self)@ == old(self)@,
            final(self).t_start == old(self).t_start,
            final(self).creator == old(self).creator,
    {
        if t < self.t_start {
            return None;
        }
        let i: usize = (t as i64 - self.t_start as i64) as usize;
        if i >= self.boards.len() {
            None
        } else {
            let v = boards_mut(&mut self.boards);
            Some(&mut v[i])
        }
    }

    /// Appends a board at the end.
    pub fn push_board(&mut self, b: Board)
        ensures
            final(self).boards@ == old(self).boards@.push(b),
            final(self).t_start == old(self).t_start,
            final(self).creator == old(self).creator,
    {
        let v = boards_mut(&mut self.boards);
        v.push(b);
    }
}

/// `Arc::make_mut` on a timeline's board vector: a mutable reference to the vector,
/// which is copied first when another timeline shares it. The contract claims that
/// the vector reached holds the boards the timeline held, and that afterwards the
/// timeline holds what was left behind the reference.
#[verifier::external_body]
fn boards_mut(boards: &mut Arc<Vec<Board>>) -> (r: &mut Vec<Board>)
    ensures
        (*r)@ == (*old(boards))@,
        (*final(boards))@ == (*final(r))@,
{
    Arc::make_mut(boards)
}

/// The full multiverse state.
#[derive(Clone, Debug)]
pub struct Multiverse {
    pub timelines: BTreeMap<i32, Timeline>,
    /// Next positive timeline index that White will create (starts at 1).
    pub next_white_l: i32,
    /// Next negative timeline index that Black will create (starts at -1).
    pub next_black_l: i32,
    pub global_to_move: Color,
    /// Half-moves since the last capture or pawn move.
    pub halfmove_clock: u32,
    /// Full-move counter, raised after Black's turn.
    pub fullmove_number: u32,
    /// Hashes of the positions reached in play, for repetition detection.
    pub position_history: Vec<u64>,
}

/// What a multiverse holds, as mathematical values.
#[verifier::ext_equal]
pub struct MultiverseView {
    pub timelines: Map<i32, TimelineView>,
    pub next_white_l: i32,
    pub next_black_l: i32,
    pub global_to_move: Color,
    pub halfmove_clock: u32,
    pub fullmove_number: u32,
    pub position_history: Seq<u64>,
}

impl View for Multiverse {
    type V = MultiverseView;

    open spec fn view(&self) -> MultiverseView {
        MultiverseView {
            timelines: self.timelines@.map_values(|tl: Timeline| tl@),
            next_white_l: self.next_white_l,
            next_black_l: self.next_black_l,
            global_to_move: self.global_to_move,
            halfmove_clock: self.halfmove_clock,
            fullmove_number: self.fullmove_number,
            position_history: self.position_history@,
        }
    }
}

/// The view of the timeline map has the same indices, each timeline by its view.
pub proof fn lemma_view_timelines(mv: Multiverse)
    ensures
        mv@.timelines.dom() == mv.timelines@.dom(),
        mv@.timelines.dom().finite(),
        forall|l: i32| #[trigger] mv.timelines@.contains_key(l) ==> mv@.timelines[l] == mv.timelines@[l]@,
{
    assert(mv@.timelines.dom() =~= mv.timelines@.dom());
}

/// Strictly increasing sequence.
pub open spec fn increasing(s: Seq<i32>) -> bool {
    forall|i: int, j: int| 0 <= i < j < s.len() ==> s[i] < s[j]
}

/// The timeline indices of the multiverse, in increasing order.
pub open spec fn keys_seq(mv: MultiverseView) -> Seq<i32> {
    choose|s: Seq<i32>| increasing(s) && s.to_set() == mv.timelines.dom()
}

/// The timeline with index `l`.
pub open spec fn tl_at(mv: MultiverseView, l: int) -> TimelineView {
    mv.timelines[l as i32]
}

/// Whether timeline `l` exists.
pub open spec fn has_tl(mv: MultiverseView, l: int) -> bool {
    i32::MIN <= l <= i32::MAX && mv.timelines.contains_key(l as i32)
}

/// Well-formedness of a multiverse: every timeline has a board and fits the
/// integer ranges; indices are not `i32::MIN`.
pub open spec fn mv_wf(mv: MultiverseView) -> bool {
    &&& forall|l: i32| #[trigger]
        mv.timelines.contains_key(l) ==> l != i32::MIN && tl_wf(mv.timelines[l])
    &&& mv.timelines.dom().finite()
    &&& mv.timelines.dom().len() < 0x4000_0000
}

/// The timeline indices still to be handed out are free: every timeline lies strictly
/// between the next Black index and the next White index.
pub open spec fn indices_fresh(mv: MultiverseView) -> bool {
    forall|l: i32| #[trigger] mv.timelines.contains_key(l) ==> mv.next_black_l < l < mv.next_white_l
}

/// The board at (l, t), if it exists.
pub open spec fn board_at(mv: MultiverseView, l: int, t: int) -> Option<Board> {
    if has_tl(mv, l) {
        tl_board(tl_at(mv, l), t)
    } else {
        None
    }
}

/// The piece at (l, t, x, y); `None` off the board or where no board exists.
pub open spec fn piece_at(mv: MultiverseView, l: int, t: int, x: int, y: int) -> Option<Piece> {
    match board_at(mv, l, t) {
        Some(b) => board_get(b, x, y),
        None => None,
    }
}

/// Number of positive entries.
pub open spec fn count_pos(s: Seq<i32>) -> int
    decreases s.len(),
{
    if s.len() == 0 {
        0
    } else {
        count_pos(s.drop_last()) + if s.last() > 0 {
            1int
        } else {
            0
        }
    }
}

/// Number of negative entries.
pub open spec fn count_neg(s: Seq<i32>) -> int
    decreases s.len(),
{
    if s.len() == 0 {
        0
    } else {
        count_neg(s.drop_last()) + if s.last() < 0 {
            1int
        } else {
            0
        }
    }
}

/// Number of White-created timelines.
pub open spec fn white_tls(mv: MultiverseView) -> int {
    count_pos(keys_seq(mv))
}

/// Number of Black-created timelines.
pub open spec fn black_tls(mv: MultiverseView) -> int {
    count_neg(keys_seq(mv))
}

/// Activation rule: timeline `l` is active iff |l| <= min(white, black) + 1.
pub open spec fn active(mv: MultiverseView, l: int) -> bool {
    let w = white_tls(mv);
    let b = black_tls(mv);
    let lim = if w <= b {
        w
    } else {
        b
    } + 1;
    -lim <= l <= lim
}

pub proof fn lemma_increasing_unique(a: Seq<i32>, b: Seq<i32>)
    requires
        increasing(a),
        increasing(b),
        a.to_set() == b.to_set(),
    ensures
        a == b,
    decreases a.len(),
{
    if a.len() == 0 {
        if b.len() > 0 {
            assert(b.to_set().contains(b[0]));
            assert(!a.to_set().contains(b[0]));
        }
        assert(a =~= b);
    } else if b.len() == 0 {
        assert(a.to_set().contains(a[0]));
    } else {
        assert(a.to_set().contains(b[0]));
        assert(b.to_set().contains(a[0]));
        let i = choose|i: int| 0 <= i < a.len() && a[i] == b[0];
        let j = choose|j: int| 0 <= j < b.len() && b[j] == a[0];
        assert(a[0] <= a[i]);
        assert(b[0] <= b[j]);
        assert(a[0] == b[0]);
        let a1 = a.drop_first();
        let b1 = b.drop_first();
        assert forall|x: i32| a1.to_set().contains(x) implies b1.to_set().contains(x) by {
            let k = choose|k: int| 0 <= k < a1.len() && a1[k] == x;
            assert(a.to_set().contains(x)) by {
                assert(a[k + 1] == x);
            }
            assert(b.to_set().contains(x));
            let k2 = choose|k2: int| 0 <= k2 < b.len() && b[k2] == x;
            assert(x > a[0]);
            assert(k2 != 0);
            assert(b1[k2 - 1] == x);
        }
        assert forall|x: i32| b1.to_set().contains(x) implies a1.to_set().contains(x) by {
            let k = choose|k: int| 0 <= k < b1.len() && b1[k] == x;
            assert(b.to_set().contains(x)) by {
                assert(b[k + 1] == x);
            }
            assert(a.to_set().contains(x));
            let k2 = choose|k2: int| 0 <= k2 < a.len() && a[k2] == x;
            assert(x > b[0]);
            assert(k2 != 0);
            assert(a1[k2 - 1] == x);
        }
        assert(a1.to_set() =~= b1.to_set());
        lemma_increasing_unique(a1, b1);
        assert(a =~= b) by {
            assert forall|k: int| 0 <= k < a.len() implies a[k] == b[k] by {
                if k > 0 {
                    assert(a[k] == a1[k - 1]);
                    assert(b[k] == b1[k - 1]);
                }
            }
        }
    }
}

/// `keys_seq` is the unique increasing sequence of the timeline indices.
pub proof fn lemma_keys_seq(mv: MultiverseView, s: Seq<i32>)
    requires
        increasing(s),
        s.to_set() == mv.timelines.dom(),
    ensures
        keys_seq(mv) == s,
{
    let k = keys_seq(mv);
    assert(increasing(k) && k.to_set() == mv.timelines.dom());
    lemma_increasing_unique(k, s);
}

impl Multiverse {
    /// The timeline indices in increasing order.
    pub(crate) fn timeline_keys(&self) -> (ks: Vec<i32>)
        ensures
            ks@ == keys_seq(self@),
    {
        let mut ks: Vec<i32> = Vec::with_capacity(self.timelines.len());
        for k in it: self.timelines.keys()
            invariant
                ks@.len() == it.index(),
                forall|i: int| 0 <= i < ks@.len() ==> ks@[i] == *it.seq()[i],
        {
            ks.push(*k);
        }
        proof {
            let s = ks@;
            let r = vstd::std_specs::iter::IteratorSpec::remaining(&spec_keys_iter(&self.timelines));
            broadcast use vstd::std_specs::btree::axiom_spec_keys_iter;
            lemma_view_timelines(*self);
            assert(r.unref().to_set() == self.timelines@.dom());
            assert(increasing_seq(r));
            assert(s =~= r.unref());
            assert(increasing(s)) by {
                assert forall|i: int, j: int| 0 <= i < j < s.len() implies s[i] < s[j] by {
                    assert(vstd::std_specs::cmp::OrdSpec::cmp_spec(&r[i], &r[j]) is Less);
                }
            }
            lemma_keys_seq(self@, s);
        }
        ks
    }
}


/// The latest board of a timeline.
pub open spec fn latest_board(tl: TimelineView) -> Board {
    tl.boards.last()
}

/// The smaller of two optional minima.
pub open spec fn min_opt(a: Option<int>, t: int) -> int {
    match a {
        Some(m) => if m <= t {
            m
        } else {
            t
        },
        None => t,
    }
}

/// Minimum latest time over the active timelines among `ks` whose latest board has
/// `side` to move.
pub open spec fn side_min(mv: MultiverseView, ks: Seq<i32>, side: Color) -> Option<int>
    decreases ks.len(),
{
    if ks.len() == 0 {
        None
    } else {
        let rest = side_min(mv, ks.drop_last(), side);
        let l = ks.last();
        let tl = mv.timelines[l];
        if active(mv, l as int) && latest_board(tl).to_move == side {
            Some(min_opt(rest, last_t(tl)))
        } else {
            rest
        }
    }
}

/// Minimum latest time over the active timelines among `ks`.
pub open spec fn active_min(mv: MultiverseView, ks: Seq<i32>) -> Option<int>
    decreases ks.len(),
{
    if ks.len() == 0 {
        None
    } else {
        let rest = active_min(mv, ks.drop_last());
        let l = ks.last();
        if active(mv, l as int) {
            Some(min_opt(rest, last_t(mv.timelines[l])))
        } else {
            rest
        }
    }
}

/// The present: the least latest time among active timelines whose latest board has
/// the global side to move; failing that, the least latest time among active
/// timelines; failing that, 0.
pub open spec fn present(mv: MultiverseView) -> int {
    match side_min(mv, keys_seq(mv), mv.global_to_move) {
        Some(t) => t,
        None => match active_min(mv, keys_seq(mv)) {
            Some(t) => t,
            None => 0,
        },
    }
}

/// Number of entries equal to `h`.
pub open spec fn count_eq(s: Seq<u64>, h: u64) -> int
    decreases s.len(),
{
    if s.len() == 0 {
        0
    } else {
        count_eq(s.drop_last(), h) + if s.last() == h {
            1int
        } else {
            0
        }
    }
}

/// Knights and bishops.
pub open spec fn is_minor(k: PieceKind) -> bool {
    k == PieceKind::Knight || k == PieceKind::Bishop
}

/// Whether square (x, y) holds a minor piece of `c`.
pub open spec fn minor_at(b: Board, x: int, y: int, c: Color) -> bool {
    sq(b, x, y) matches Some(p) && is_minor(p.kind) && p.color == c
}

/// Minor pieces of `c` on rank `y`, files `0..x`.
pub open spec fn minors_in_rank(b: Board, c: Color, y: int, x: int) -> int
    decreases x,
{
    if x <= 0 {
        0
    } else {
        minors_in_rank(b, c, y, x - 1) + if minor_at(b, x - 1, y, c) {
            1int
        } else {
            0
        }
    }
}

/// Minor pieces of `c` on ranks `0..y`.
pub open spec fn minors_below(b: Board, c: Color, y: int) -> int
    decreases y,
{
    if y <= 0 {
        0
    } else {
        minors_below(b, c, y - 1) + minors_in_rank(b, c, y - 1, 8)
    }
}

/// Classic insufficient material on one board: bare kings, or king against king and
/// one minor piece.
pub open spec fn board_insufficient(b: Board) -> bool {
    &&& forall|x: int, y: int|
        on_board(x, y) ==> (#[trigger] sq(b, x, y) matches Some(p) ==> p.kind == PieceKind::King
            || is_minor(p.kind))
    &&& minors_below(b, Color::White, 8) + minors_below(b, Color::Black, 8) <= 1
}

/// Every active timeline's latest board is drawn by insufficient material, and there
/// is at least one timeline.
pub open spec fn insufficient(mv: MultiverseView) -> bool {
    &&& mv.timelines.dom().len() > 0
    &&& forall|l: i32| #[trigger]
        mv.timelines.contains_key(l) && active(mv, l as int) ==> board_insufficient(
            latest_board(mv.timelines[l]),
        )
}

/// Only kings, knights and bishops can stand on a board drawn by insufficient material:
/// a board with any other piece on it (a rook, a queen, a pawn, ...) is not such a
/// board.
pub proof fn lemma_heavy_piece_is_sufficient(b: Board, x: int, y: int)
    requires
        on_board(x, y),
        sq(b, x, y) matches Some(p) && p.kind != PieceKind::King && p.kind != PieceKind::Knight && p.kind
            != PieceKind::Bishop,
    ensures
        !board_insufficient(b),
{
}

/// A multiverse with such a piece on the latest board of an active timeline is not
/// drawn by insufficient material.
pub proof fn lemma_heavy_piece_prevents_material_draw(mv: MultiverseView, l: i32, x: int, y: int)
    requires
        mv.timelines.contains_key(l),
        active(mv, l as int),
        on_board(x, y),
        sq(latest_board(mv.timelines[l]), x, y) matches Some(p) && p.kind != PieceKind::King && p.kind
            != PieceKind::Knight && p.kind != PieceKind::Bishop,
    ensures
        !insufficient(mv),
{
    lemma_heavy_piece_is_sufficient(latest_board(mv.timelines[l]), x, y);
}

proof fn lemma_minors_at_most_one_square(b: Board, c: Color, x: int, y: int, j: int, n: int)
    requires
        0 <= n <= 8,
        forall|i: int| 0 <= i < 8 && (i != x || j != y) ==> !#[trigger] minor_at(b, i, j, c),
    ensures
        minors_in_rank(b, c, j, n) == (if j == y && 0 <= x < n && minor_at(b, x, y, c) {
            1int
        } else {
            0
        }),
    decreases n,
{
    if n > 0 {
        lemma_minors_at_most_one_square(b, c, x, y, j, n - 1);
        if !(j == y && n - 1 == x) {
            assert(!minor_at(b, n - 1, j, c));
        }
    }
}

proof fn lemma_minors_below_one_square(b: Board, c: Color, x: int, y: int, n: int)
    requires
        0 <= n <= 8,
        0 <= x < 8,
        forall|i: int, j: int| 0 <= i < 8 && 0 <= j < 8 && (i != x || j != y) ==> !#[trigger] minor_at(b, i, j, c),
    ensures
        minors_below(b, c, n) == (if 0 <= y < n && minor_at(b, x, y, c) {
            1int
        } else {
            0
        }),
    decreases n,
{
    if n > 0 {
        lemma_minors_below_one_square(b, c, x, y, n - 1);
        lemma_minors_at_most_one_square(b, c, x, y, n - 1, 8);
    }
}

/// Bare kings, or kings and a single knight or bishop, are a draw by insufficient
/// material: a board whose squares hold nothing but kings, except at most one square
/// holding a knight or a bishop, is drawn.
pub proof fn lemma_kings_and_one_minor_are_insufficient(b: Board, x: int, y: int)
    requires
        on_board(x, y),
        forall|i: int, j: int| on_board(i, j) && (i != x || j != y) ==> (#[trigger] sq(b, i, j) matches Some(p) ==> p.kind
            == PieceKind::King),
        sq(b, x, y) matches Some(p) ==> p.kind == PieceKind::King || p.kind == PieceKind::Knight || p.kind
            == PieceKind::Bishop,
    ensures
        board_insufficient(b),
{
    assert forall|i: int, j: int| 0 <= i < 8 && 0 <= j < 8 && (i != x || j != y) implies !#[trigger] minor_at(b, i, j, Color::White) by {
        assert(on_board(i, j));
    }
    assert forall|i: int, j: int| 0 <= i < 8 && 0 <= j < 8 && (i != x || j != y) implies !#[trigger] minor_at(b, i, j, Color::Black) by {
        assert(on_board(i, j));
    }
    lemma_minors_below_one_square(b, Color::White, x, y, 8);
    lemma_minors_below_one_square(b, Color::Black, x, y, 8);
    assert forall|i: int, j: int| on_board(i, j) implies (#[trigger] sq(b, i, j) matches Some(p) ==> p.kind
        == PieceKind::King || is_minor(p.kind)) by {
        if i != x || j != y {
        }
    }
}

proof fn lemma_count_bounds(s: Seq<i32>)
    ensures
        0 <= count_pos(s) <= s.len(),
        0 <= count_neg(s) <= s.len(),
    decreases s.len(),
{
    if s.len() > 0 {
        lemma_count_bounds(s.drop_last());
    }
}

proof fn lemma_count_eq_bound(s: Seq<u64>, h: u64)
    ensures
        0 <= count_eq(s, h) <= s.len(),
    decreases s.len(),
{
    if s.len() > 0 {
        lemma_count_eq_bound(s.drop_last(), h);
    }
}

/// A finite non-empty set of indices has a greatest element.
proof fn lemma_finite_max(s: Set<i32>) -> (m: i32)
    requires
        s.finite(),
        s.len() > 0,
    ensures
        s.contains(m),
        forall|y: i32| s.contains(y) ==> y <= m,
    decreases s.len(),
{
    let x = s.choose();
    let r = s.remove(x);
    if r.len() == 0 {
        assert forall|y: i32| s.contains(y) implies y <= x by {
            if y != x {
                assert(r.contains(y));
            }
        }
        x
    } else {
        let m2 = lemma_finite_max(r);
        if x <= m2 {
            m2
        } else {
            x
        }
    }
}

/// Every finite set of indices is listed by some increasing sequence.
proof fn lemma_sorted_exists(s: Set<i32>) -> (q: Seq<i32>)
    requires
        s.finite(),
    ensures
        increasing(q),
        q.to_set() == s,
    decreases s.len(),
{
    if s.len() == 0 {
        let q = Seq::<i32>::empty();
        assert(q.to_set() =~= s);
        q
    } else {
        let m = lemma_finite_max(s);
        let r = s.remove(m);
        let q0 = lemma_sorted_exists(r);
        let q = q0.push(m);
        assert forall|i: int, j: int| 0 <= i < j < q.len() implies q[i] < q[j] by {
            if j == q.len() - 1 {
                assert(q0.to_set().contains(q0[i]));
                assert(r.contains(q[i]));
            }
        }
        assert forall|x: i32| q.to_set().contains(x) <==> s.contains(x) by {
            if x == m {
                assert(q[q.len() - 1] == x);
            }
            if s.contains(x) && x != m {
                assert(r.contains(x));
                assert(q0.to_set().contains(x));
                let k = choose|k: int| 0 <= k < q0.len() && q0[k] == x;
                assert(q[k] == x);
            }
            if q.to_set().contains(x) {
                let k = choose|k: int| 0 <= k < q.len() && q[k] == x;
                if k < q0.len() {
                    assert(q0[k] == x);
                    assert(q0.to_set().contains(x));
                    assert(r.contains(x));
                } else {
                    assert(x == m);
                }
            }
        }
        assert(q.to_set() =~= s);
        q
    }
}

/// `keys_seq` lists the timeline indices in increasing order.
pub proof fn lemma_keys_seq_props(mv: MultiverseView)
    requires
        mv.timelines.dom().finite(),
    ensures
        increasing(keys_seq(mv)),
        keys_seq(mv).to_set() == mv.timelines.dom(),
{
    let q = lemma_sorted_exists(mv.timelines.dom());
    lemma_keys_seq(mv, q);
}

/// In a well-formed multiverse there are fewer than 2^30 timelines.
pub(crate) proof fn lemma_keys_len(mv: MultiverseView)
    requires
        mv_wf(mv),
    ensures
        keys_seq(mv).len() == mv.timelines.dom().len(),
        keys_seq(mv).len() < 0x4000_0000,
        forall|i: int| 0 <= i < keys_seq(mv).len() ==> mv.timelines.contains_key(
            #[trigger] keys_seq(mv)[i],
        ),
{
    let k = keys_seq(mv);
    lemma_keys_seq_props(mv);
    assert(k.no_duplicates());
    k.unique_seq_to_set();
    assert forall|i: int| 0 <= i < k.len() implies mv.timelines.contains_key(#[trigger] k[i]) by {
        assert(k.to_set().contains(k[i]));
    }
}


impl Multiverse {
    /// The standard start: one timeline `0` holding the starting position at T=0,
    /// White to move.
    pub fn standard_start() -> (mv: Self)
        ensures
            mv_wf(mv@),
            indices_fresh(mv@),
            mv@.timelines.dom() == set![0i32],
            mv@.timelines[0].t_start == 0,
            mv@.timelines[0].boards.len() == 1,
            mv@.timelines[0].creator is None,
            forall|x: int, y: int|
                on_board(x, y) ==> #[trigger] sq(mv@.timelines[0].boards[0], x, y)
                    == crate::board::start_square(x, y),
            mv@.timelines[0].boards[0].to_move == Color::White,
            forall|s: CastleSide| crate::board::right(mv@.timelines[0].boards[0].castling, s),
            mv@.timelines[0].boards[0].en_passant is None,
            mv.next_white_l == 1,
            mv.next_black_l == -1,
            mv.global_to_move == Color::White,
            mv.halfmove_clock == 0,
            mv.fullmove_number == 1,
            mv@.position_history.len() == 0,
    {
        let mut timelines: BTreeMap<i32, Timeline> = BTreeMap::new();
        let start = Board::starting_position();
        let mut boards: Vec<Board> = Vec::new();
        boards.push(start);
        timelines.insert(0, Timeline { t_start: 0, boards: Arc::new(boards), creator: None });
        let mv = Multiverse {
            timelines,
            next_white_l: 1,
            next_black_l: -1,
            global_to_move: Color::White,
            halfmove_clock: 0,
            fullmove_number: 1,
            position_history: Vec::new(),
        };
        proof {
            lemma_view_timelines(mv);
            assert(mv@.timelines.dom() =~= set![0i32]);
        }
        mv
    }

    /// The board with identifier `id`, if it exists.
    pub fn board(&self, id: BoardId) -> (r: Option<&Board>)
        ensures
            r matches Some(b) ==> board_at(self@, id.l as int, id.t as int) == Some(*b),
            r is None ==> board_at(self@, id.l as int, id.t as int) is None,
    {
        match self.timelines.get(&id.l) {
            Some(tl) => tl.get_board(id.t),
            None => None,
        }
    }

    /// Whether `id` is the last board of its timeline.
    pub fn is_latest_on_timeline(&self, id: BoardId) -> (r: bool)
        requires
            mv_wf(self@),
        ensures
            r == (has_tl(self@, id.l as int) && last_t(tl_at(self@, id.l as int)) == id.t),
    {
        match self.timelines.get(&id.l) {
            Some(tl) => tl.latest_t() == id.t,
            None => false,
        }
    }

    /// Number of White-created (positive) and Black-created (negative) timelines.
    pub fn timeline_counts(&self) -> (r: (i32, i32))
        requires
            mv_wf(self@),
        ensures
            r.0 == white_tls(self@),
            r.1 == black_tls(self@),
    {
        let ks = self.timeline_keys();
        self.counts_in(&ks)
    }

    /// `timeline_counts`, with the timeline indices at hand.
    fn counts_in(&self, ks: &Vec<i32>) -> (r: (i32, i32))
        requires
            mv_wf(self@),
            ks@ == keys_seq(self@),
        ensures
            r.0 == white_tls(self@),
            r.1 == black_tls(self@),
    {
        proof {
            lemma_keys_len(self@);
        }
        let mut w: i32 = 0;
        let mut b: i32 = 0;
        let mut i: usize = 0;
        while i < ks.len()
            invariant
                i <= ks@.len(),
                ks@.len() < 0x4000_0000,
                w == count_pos(ks@.take(i as int)),
                b == count_neg(ks@.take(i as int)),
            decreases ks@.len() - i,
        {
            proof {
                lemma_count_bounds(ks@.take(i as int));
                assert(ks@.take(i + 1).drop_last() =~= ks@.take(i as int));
            }
            let l = ks[i];
            if l > 0 {
                w = w + 1;
            } else if l < 0 {
                b = b + 1;
            }
            i = i + 1;
        }
        proof {
            assert(ks@.take(ks@.len() as int) =~= ks@);
        }
        (w, b)
    }

    /// `min(white, black) + 1`, the bound of the activation rule.
    pub(crate) fn active_limit(&self) -> (lim: i32)
        requires
            mv_wf(self@),
        ensures
            lim == (if white_tls(self@) <= black_tls(self@) {
                white_tls(self@)
            } else {
                black_tls(self@)
            }) + 1,
            forall|l: i32| l != i32::MIN ==> (active(self@, l as int) <==> (if l < 0 {
                -l
            } else {
                l as int
            }) <= lim),
    {
        let ks = self.timeline_keys();
        self.limit_in(&ks)
    }

    /// `active_limit`, with the timeline indices at hand.
    pub(crate) fn limit_in(&self, ks: &Vec<i32>) -> (lim: i32)
        requires
            mv_wf(self@),
            ks@ == keys_seq(self@),
        ensures
            lim == (if white_tls(self@) <= black_tls(self@) {
                white_tls(self@)
            } else {
                black_tls(self@)
            }) + 1,
            forall|l: i32| l != i32::MIN ==> (active(self@, l as int) <==> (if l < 0 {
                -l
            } else {
                l as int
            }) <= lim),
    {
        let (w, b) = self.counts_in(ks);
        proof {
            lemma_keys_len(self@);
            lemma_count_bounds(keys_seq(self@));
        }
        if w <= b {
            w + 1
        } else {
            b + 1
        }
    }

    /// Activation rule: timeline `l` is active iff |l| <= min(white, black) + 1.
    pub fn is_active(&self, l: i32) -> (r: bool)
        requires
            mv_wf(self@),
            l != i32::MIN,
        ensures
            r == active(self@, l as int),
    {
        let lim = self.active_limit();
        let a = if l < 0 {
            -l
        } else {
            l
        };
        a <= lim
    }

    /// The present: least latest T among active timelines whose latest board has the
    /// global side to move (else among all active timelines, else 0).
    pub fn present_t(&self) -> (r: i32)
        requires
            mv_wf(self@),
        ensures
            r == present(self@),
    {
        let side = self.global_to_move;
        let ks = self.timeline_keys();
        let lim = self.active_limit();
        proof {
            lemma_keys_len(self@);
        }
        proof {
            lemma_view_timelines(*self);
        }
        let mut best: Option<i32> = None;
        let mut best_any: Option<i32> = None;
        let mut i: usize = 0;
        while i < ks.len()
            invariant
                i <= ks@.len(),
                ks@ == keys_seq(self@),
                mv_wf(self@),
                side == self.global_to_move,
                self@.timelines.dom() == self.timelines@.dom(),
                forall|l: i32| #[trigger] self.timelines@.contains_key(l) ==> self@.timelines[l] == self.timelines@[l]@,
                forall|j: int| 0 <= j < ks@.len() ==> self.timelines@.contains_key(
                    #[trigger] ks@[j],
                ),
                forall|l: i32| l != i32::MIN ==> (active(self@, l as int) <==> (if l < 0 {
                    -l
                } else {
                    l as int
                }) <= lim),
                match best {
                    Some(t) => side_min(self@, ks@.take(i as int), side) == Some(t as int),
                    None => side_min(self@, ks@.take(i as int), side) is None,
                },
                match best_any {
                    Some(t) => active_min(self@, ks@.take(i as int)) == Some(t as int),
                    None => active_min(self@, ks@.take(i as int)) is None,
                },
            decreases ks@.len() - i,
        {
            let l = ks[i];
            proof {
                assert(ks@.take(i + 1).drop_last() =~= ks@.take(i as int));
                assert(ks@.take(i + 1).last() == l);
                assert(self.timelines@.contains_key(l));
            }
            let tl = self.timelines.get(&l).unwrap();
            let a = if l < 0 {
                -l
            } else {
                l
            };
            if a <= lim {
                let t = tl.latest_t();
                let b = &tl.boards[tl.boards.len() - 1];
                best_any = match best_any {
                    Some(m) => if m <= t {
                        Some(m)
                    } else {
                        Some(t)
                    },
                    None => Some(t),
                };
                if b.to_move == side {
                    best = match best {
                        Some(m) => if m <= t {
                            Some(m)
                        } else {
                            Some(t)
                        },
                        None => Some(t),
                    };
                }
            }
            i = i + 1;
        }
        proof {
            assert(ks@.take(ks@.len() as int) =~= ks@);
        }
        match best {
            Some(t) => t,
            None => match best_any {
                Some(t) => t,
                None => 0,
            },
        }
    }

    /// Allocates a fresh timeline index for `color`: White counts up from 1, Black
    /// down from -1.
    pub fn new_timeline_index(&mut self, color: Color) -> (l: i32)
        requires
            color == Color::White ==> old(self).next_white_l < i32::MAX,
            color == Color::Black ==> old(self).next_black_l > i32::MIN,
        ensures
            color == Color::White ==> l == old(self).next_white_l && final(self).next_white_l
                == old(self).next_white_l + 1 && final(self).next_black_l
                == old(self).next_black_l,
            color == Color::Black ==> l == old(self).next_black_l && final(self).next_black_l
                == old(self).next_black_l - 1 && final(self).next_white_l
                == old(self).next_white_l,
            final(self).timelines == old(self).timelines,
            final(self).global_to_move == old(self).global_to_move,
            final(self).halfmove_clock == old(self).halfmove_clock,
            final(self).fullmove_number == old(self).fullmove_number,
            final(self).position_history == old(self).position_history,
            indices_fresh(old(self)@) ==> !old(self)@.timelines.contains_key(l) && indices_fresh(final(self)@),
    {
        proof {
            lemma_view_timelines(*old(self));
        }
        match color {
            Color::White => {
                let l = self.next_white_l;
                self.next_white_l = self.next_white_l + 1;
                l
            },
            Color::Black => {
                let l = self.next_black_l;
                self.next_black_l = self.next_black_l - 1;
                l
            },
        }
    }

    /// Fifty-move rule: 100 half-moves without a capture or pawn move.
    pub fn is_50move_draw(&self) -> (r: bool)
        ensures
            r == (self.halfmove_clock >= 100),
    {
        self.halfmove_clock >= 100
    }

    /// Threefold repetition: the last recorded position occurs at least three times.
    pub fn is_threefold(&self) -> (r: bool)
        ensures
            r == (self.position_history@.len() > 0 && count_eq(
                self.position_history@,
                self.position_history@.last(),
            ) >= 3),
    {
        let n = self.position_history.len();
        if n == 0 {
            return false;
        }
        let cur = self.position_history[n - 1];
        let mut c: usize = 0;
        let mut i: usize = 0;
        while i < n
            invariant
                i <= n,
                n == self.position_history@.len(),
                cur == self.position_history@.last(),
                c == count_eq(self.position_history@.take(i as int), cur),
            decreases n - i,
        {
            proof {
                assert(self.position_history@.take(i + 1).drop_last() =~= self.position_history@.take(
                    i as int,
                ));
                lemma_count_eq_bound(self.position_history@.take(i as int), cur);
            }
            if self.position_history[i] == cur {
                c = c + 1;
            }
            i = i + 1;
        }
        proof {
            assert(self.position_history@.take(n as int) =~= self.position_history@);
        }
        c >= 3
    }

    /// Insufficient material on every active board: only kings and at most one minor
    /// piece per side. False when there is no timeline.
    pub fn is_insufficient_material(&self) -> (r: bool)
        requires
            mv_wf(self@),
        ensures
            r == insufficient(self@),
    {
        let ks = self.timeline_keys();
        let lim = self.active_limit();
        proof {
            lemma_keys_len(self@);
            lemma_keys_seq_props(self@);
            lemma_view_timelines(*self);
        }
        if ks.len() == 0 {
            return false;
        }
        let mut i: usize = 0;
        while i < ks.len()
            invariant
                i <= ks@.len(),
                ks@ == keys_seq(self@),
                ks@.len() > 0,
                mv_wf(self@),
                self@.timelines.dom() == self.timelines@.dom(),
                forall|l: i32| #[trigger] self.timelines@.contains_key(l) ==> self@.timelines[l] == self.timelines@[l]@,
                forall|j: int| 0 <= j < ks@.len() ==> self.timelines@.contains_key(
                    #[trigger] ks@[j],
                ),
                forall|l: i32| l != i32::MIN ==> (active(self@, l as int) <==> (if l < 0 {
                    -l
                } else {
                    l as int
                }) <= lim),
                forall|j: int|
                    0 <= j < i ==> active(self@, ks@[j] as int) ==> board_insufficient(
                        latest_board(#[trigger] self@.timelines[ks@[j]]),
                    ),
            decreases ks@.len() - i,
        {
            let l = ks[i];
            let tl = self.timelines.get(&l).unwrap();
            let a = if l < 0 {
                -l
            } else {
                l
            };
            if a <= lim {
                let b = &tl.boards[tl.boards.len() - 1];
                if !board_is_insufficient(b) {
                    proof {
                        assert(self.timelines@.contains_key(l));
                    }
                    return false;
                }
            }
            i = i + 1;
        }
        proof {
            assert forall|l: i32| #[trigger]
                self@.timelines.contains_key(l) && active(self@, l as int) implies board_insufficient(
                latest_board(self@.timelines[l]),
            ) by {
                assert(keys_seq(self@).to_set().contains(l));
                let j = choose|j: int| 0 <= j < ks@.len() && ks@[j] == l;
                assert(active(self@, ks@[j] as int));
            }
        }
        true
    }
}

/// Whether one board is drawn by insufficient material.
fn board_is_insufficient(b: &Board) -> (r: bool)
    ensures
        r == board_insufficient(*b),
{
    let mut white_minor: i32 = 0;
    let mut black_minor: i32 = 0;
    let mut y: i8 = 0;
    while y < 8
        invariant
            0 <= y <= 8,
            white_minor == minors_below(*b, Color::White, y as int),
            black_minor == minors_below(*b, Color::Black, y as int),
            0 <= white_minor,
            0 <= black_minor,
            white_minor + black_minor <= 1,
            forall|i: int, j: int|
                on_board(i, j) && j < y ==> (#[trigger] sq(*b, i, j) matches Some(p) ==> p.kind
                    == PieceKind::King || is_minor(p.kind)),
        decreases 8 - y,
    {
        let mut x: i8 = 0;
        let ghost wb = white_minor;
        let ghost bb = black_minor;
        while x < 8
            invariant
                0 <= x <= 8,
                0 <= y < 8,
                wb == minors_below(*b, Color::White, y as int),
                bb == minors_below(*b, Color::Black, y as int),
                white_minor == wb + minors_in_rank(*b, Color::White, y as int, x as int),
                black_minor == bb + minors_in_rank(*b, Color::Black, y as int, x as int),
                0 <= white_minor,
                0 <= black_minor,
                white_minor + black_minor <= 1,
                forall|i: int, j: int|
                    on_board(i, j) && (j < y || (j == y && i < x)) ==> (#[trigger] sq(
                        *b,
                        i,
                        j,
                    ) matches Some(p) ==> p.kind == PieceKind::King || is_minor(p.kind)),
            decreases 8 - x,
        {
            if let Some(p) = b.get(x, y) {
                match p.kind {
                    PieceKind::King => {},
                    PieceKind::Knight | PieceKind::Bishop => {
                        if white_minor + black_minor >= 1 {
                            proof {
                                lemma_minors_mono(*b, Color::White, y as int, x as int + 1);
                                lemma_minors_mono(*b, Color::Black, y as int, x as int + 1);
                            }
                            return false;
                        }
                        if p.color == Color::White {
                            white_minor = white_minor + 1;
                        } else {
                            black_minor = black_minor + 1;
                        }
                    },
                    _ => {
                        return false;
                    },
                }
            }
            x = x + 1;
        }
        y = y + 1;
    }
    true
}

proof fn lemma_rank_mono(b: Board, c: Color, y: int, x: int, x2: int)
    requires
        0 <= x <= x2 <= 8,
    ensures
        0 <= minors_in_rank(b, c, y, x) <= minors_in_rank(b, c, y, x2),
    decreases x2,
{
    if x2 > x {
        lemma_rank_mono(b, c, y, x, x2 - 1);
    }
    if x > 0 {
        lemma_rank_mono(b, c, y, 0, x - 1);
    }
}

proof fn lemma_below_mono(b: Board, c: Color, y: int, y2: int)
    requires
        0 <= y <= y2 <= 8,
    ensures
        0 <= minors_below(b, c, y) <= minors_below(b, c, y2),
    decreases y2,
{
    if y2 > y {
        lemma_below_mono(b, c, y, y2 - 1);
        lemma_rank_mono(b, c, y2 - 1, 0, 8);
    }
    if y > 0 {
        lemma_below_mono(b, c, 0, y - 1);
        lemma_rank_mono(b, c, y - 1, 0, 8);
    }
}

/// The count over the whole board is at least the count over ranks below `y` plus
/// files `0..x` of rank `y`.
proof fn lemma_minors_mono(b: Board, c: Color, y: int, x: int)
    requires
        0 <= y < 8,
        0 <= x <= 8,
    ensures
        minors_below(b, c, y) + minors_in_rank(b, c, y, x) <= minors_below(b, c, 8),
{
    lemma_rank_mono(b, c, y, x, 8);
    lemma_below_mono(b, c, y + 1, 8);
}



/// A copy of a hash history.
pub(crate) fn copy_history(v: &Vec<u64>) -> (r: Vec<u64>)
    ensures
        r@ == v@,
{
    let mut r: Vec<u64> = Vec::new();
    let mut i: usize = 0;
    while i < v.len()
        invariant
            i <= v@.len(),
            r@ == v@.subrange(0, i as int),
        decreases v@.len() - i,
    {
        r.push(v[i]);
        i = i + 1;
        proof {
            assert(v@.subrange(0, i as int) =~= v@.subrange(0, (i - 1) as int).push(v@[i - 1]));
        }
    }
    proof {
        assert(v@.subrange(0, v@.len() as int) =~= v@);
    }
    r
}

impl Multiverse {
    /// A copy of the whole state.
    pub(crate) fn copy(&self) -> (r: Multiverse)
        ensures
            r@ == self@,
            r.timelines@ == self.timelines@,
    {
        let r = Multiverse {
            timelines: self.timelines.clone(),
            next_white_l: self.next_white_l,
            next_black_l: self.next_black_l,
            global_to_move: self.global_to_move,
            halfmove_clock: self.halfmove_clock,
            fullmove_number: self.fullmove_number,
            position_history: copy_history(&self.position_history),
        };
        proof {
            lemma_view_timelines(r);
            lemma_view_timelines(*self);
            assert(r@.timelines =~= self@.timelines);
        }
        r
    }

    /// Appends board `b` to timeline `l`.
    pub(crate) fn push_onto(&mut self, l: i32, b: Board)
        requires
            old(self)@.timelines.contains_key(l),
        ensures
            final(self)@ == (MultiverseView {
                timelines: old(self)@.timelines.insert(
                    l,
                    TimelineView { boards: old(self)@.timelines[l].boards.push(b), ..old(self)@.timelines[l] },
                ),
                ..old(self)@
            }),
    {
        proof {
            lemma_view_timelines(*old(self));
        }
        let mut tl = self.timelines.remove(&l).unwrap();
        tl.push_board(b);
        self.timelines.insert(l, tl);
        proof {
            lemma_view_timelines(*self);
            assert(self@.timelines =~= old(self)@.timelines.insert(
                l,
                TimelineView { boards: old(self)@.timelines[l].boards.push(b), ..old(self)@.timelines[l] },
            ));
        }
    }

    /// Adds (or replaces) timeline `l`.
    pub(crate) fn put_timeline(&mut self, l: i32, tl: Timeline)
        ensures
            final(self)@ == (MultiverseView { timelines: old(self)@.timelines.insert(l, tl@), ..old(self)@ }),
    {
        proof {
            lemma_view_timelines(*old(self));
        }
        self.timelines.insert(l, tl);
        proof {
            lemma_view_timelines(*self);
            assert(self@.timelines =~= old(self)@.timelines.insert(l, tl@));
        }
    }
}


/// `true` or `false`, as `bool`'s `Display` writes it.
pub open spec fn bool_text(b: bool) -> Seq<char> {
    if b {
        "true"@
    } else {
        "false"@
    }
}

/// `White` or `Black`, as `Color`'s derived `Debug` writes it.
pub open spec fn color_text(c: Color) -> Seq<char> {
    match c {
        Color::White => "White"@,
        Color::Black => "Black"@,
    }
}

/// The block of timeline `l`: a header with its index, time span and whether it is
/// active, then its latest board.
pub open spec fn timeline_text(mv: MultiverseView, l: i32) -> Seq<char> {
    let tl = mv.timelines[l];
    let latest = last_t(tl);
    "== Timeline L="@ + int_text(l as int) + " (t="@ + int_text(tl.t_start as int) + ".."@
        + int_text(latest) + ") active="@ + bool_text(active(mv, l as int)) + " ==\n"@
        + "  latest T="@ + int_text(latest) + ", to_move="@ + color_text(
        latest_board(tl).to_move,
    ) + "\n"@ + board_text(latest_board(tl))
}

/// The blocks of the timelines `ks`, in order.
pub open spec fn timelines_text(mv: MultiverseView, ks: Seq<i32>) -> Seq<char>
    decreases ks.len(),
{
    if ks.len() == 0 {
        seq![]
    } else {
        timelines_text(mv, ks.drop_last()) + timeline_text(mv, ks.last())
    }
}

/// The whole multiverse as text: every timeline in index order, then the side to move
/// and the present.
pub open spec fn multiverse_text(mv: MultiverseView) -> Seq<char> {
    timelines_text(mv, keys_seq(mv)) + "Global to move: "@ + color_text(mv.global_to_move)
        + "    Present T = "@ + int_text(present(mv)) + "\n"@
}

fn push_color(out: &mut Vec<char>, c: Color)
    ensures
        final(out)@ == old(out)@ + color_text(c),
{
    match c {
        Color::White => push_str(out, "White"),
        Color::Black => push_str(out, "Black"),
    }
}

impl Multiverse {
    /// Appends the block of timeline `l`.
    fn push_timeline(&self, out: &mut Vec<char>, l: i32)
        requires
            mv_wf(self@),
            self@.timelines.contains_key(l),
        ensures
            final(out)@ == old(out)@ + timeline_text(self@, l),
    {
        proof {
            lemma_view_timelines(*self);
        }
        let tl = self.timelines.get(&l).unwrap();
        let latest = tl.latest_t();
        let mut h: Vec<char> = Vec::new();
        push_str(&mut h, "== Timeline L=");
        push_int(&mut h, l as i64);
        push_str(&mut h, " (t=");
        push_int(&mut h, tl.t_start as i64);
        push_str(&mut h, "..");
        push_int(&mut h, latest as i64);
        push_str(&mut h, ") active=");
        if self.is_active(l) {
            push_str(&mut h, "true");
        } else {
            push_str(&mut h, "false");
        }
        push_str(&mut h, " ==\n");
        push_str(&mut h, "  latest T=");
        push_int(&mut h, latest as i64);
        push_str(&mut h, ", to_move=");
        let b = &tl.boards[tl.boards.len() - 1];
        push_color(&mut h, b.to_move);
        push_str(&mut h, "\n");
        let bt = b.ascii();
        push_str(&mut h, bt.as_str());
        proof {
            assert(h@ =~= timeline_text(self@, l));
        }
        let ghost before = out@;
        let mut k: usize = 0;
        while k < h.len()
            invariant
                k <= h@.len(),
                out@ == before + h@.take(k as int),
            decreases h@.len() - k,
        {
            out.push(h[k]);
            k = k + 1;
            proof {
                assert(h@.take(k as int) =~= h@.take(k - 1).push(h@[k - 1]));
            }
        }
        proof {
            assert(h@.take(h@.len() as int) =~= h@);
        }
    }

    /// The multiverse as text, timeline by timeline with the latest board of each.
    pub fn ascii(&self) -> (s: String)
        requires
            mv_wf(self@),
        ensures
            s@ == multiverse_text(self@),
    {
        let ks = self.timeline_keys();
        proof {
            lemma_keys_seq_props(self@);
            lemma_view_timelines(*self);
        }
        let mut out: Vec<char> = Vec::new();
        let mut i: usize = 0;
        while i < ks.len()
            invariant
                i <= ks@.len(),
                ks@ == keys_seq(self@),
                ks@.to_set() == self@.timelines.dom(),
                mv_wf(self@),
                self@.timelines.dom() == self.timelines@.dom(),
                forall|l: i32| #[trigger] self.timelines@.contains_key(l) ==> self@.timelines[l] == self.timelines@[l]@,
                out@ == timelines_text(self@, ks@.take(i as int)),
            decreases ks@.len() - i,
        {
            let l = ks[i];
            proof {
                assert(ks@.to_set().contains(l));
                assert(ks@.take(i + 1).drop_last() =~= ks@.take(i as int));
                assert(ks@.take(i + 1).last() == l);
            }
            self.push_timeline(&mut out, l);
            i = i + 1;
        }
        proof {
            assert(ks@.take(ks@.len() as int) =~= ks@);
        }
        let side = self.global_to_move;
        let present = self.present_t();
        push_str(&mut out, "Global to move: ");
        push_color(&mut out, side);
        push_str(&mut out, "    Present T = ");
        push_int(&mut out, present as i64);
        push_str(&mut out, "\n");
        proof {
            assert(out@ =~= multiverse_text(self@));
        }
        string_from_chars(&out)
    }
}

} // verus!
