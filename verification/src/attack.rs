//! Squares, rays and attack detection across the four axes.

use vstd::prelude::*;

use crate::board::{board_get, in_bounds, king_on, on_board, scan_before, sq, Board};
use crate::geometry::{
    dir_table, is_dir, is_knight_dir, knight_table, tables_ok, unit, Tables,
};
use crate::multiverse::{
    active, board_at, has_tl, keys_seq, last_t, latest_board, mv_wf, piece_at, tl_at, Multiverse,
    MultiverseView, Timeline,
};
use crate::types::{color_sign, opposite, BoardId, Color, Coord, Piece, PieceKind};

verus! {

// ---------------------------------------------------------------------------
// Squares and rays
// ---------------------------------------------------------------------------

/// (l, t, x, y) is a square of an existing board.
pub open spec fn reach(mv: MultiverseView, l: int, t: int, x: int, y: int) -> bool {
    on_board(x, y) && board_at(mv, l, t) is Some
}

/// The coordinate with these components (when they fit their types).
pub open spec fn coord(l: int, t: int, x: int, y: int) -> Coord {
    Coord { l: l as i32, t: t as i32, x: x as i8, y: y as i8 }
}

/// `n` steps of sign `v`.
pub open spec fn scale(n: int, v: i32) -> int {
    if v > 0 {
        n
    } else if v < 0 {
        -n
    } else {
        0
    }
}

pub open spec fn ray_l(c: Coord, d: [i32; 4], n: int) -> int {
    c.l + scale(n, d@[3])
}

pub open spec fn ray_t(c: Coord, d: [i32; 4], n: int) -> int {
    c.t + scale(n, d@[2])
}

pub open spec fn ray_x(c: Coord, d: [i32; 4], n: int) -> int {
    c.x + scale(n, d@[0])
}

pub open spec fn ray_y(c: Coord, d: [i32; 4], n: int) -> int {
    c.y + scale(n, d@[1])
}

/// The `n`-th square of the ray from `c` along unit direction `d` exists.
pub open spec fn ray_reach(mv: MultiverseView, c: Coord, d: [i32; 4], n: int) -> bool {
    reach(mv, ray_l(c, d, n), ray_t(c, d, n), ray_x(c, d, n), ray_y(c, d, n))
}

/// The piece on the `n`-th square of the ray.
pub open spec fn ray_piece(mv: MultiverseView, c: Coord, d: [i32; 4], n: int) -> Option<Piece> {
    piece_at(mv, ray_l(c, d, n), ray_t(c, d, n), ray_x(c, d, n), ray_y(c, d, n))
}

/// The `n`-th square of the ray as a coordinate.
pub open spec fn ray_coord(c: Coord, d: [i32; 4], n: int) -> Coord {
    coord(ray_l(c, d, n), ray_t(c, d, n), ray_x(c, d, n), ray_y(c, d, n))
}

/// Squares 1 .. n-1 of the ray exist and are empty.
pub open spec fn ray_clear(mv: MultiverseView, c: Coord, d: [i32; 4], n: int) -> bool {
    forall|k: int| 1 <= k < n ==> #[trigger] ray_reach(mv, c, d, k) && ray_piece(mv, c, d, k) is None
}

/// The piece at `c + d`.
pub open spec fn piece_plus(mv: MultiverseView, c: Coord, d: [i32; 4]) -> Option<Piece> {
    piece_at(mv, c.l + d@[3], c.t + d@[2], c.x + d@[0], c.y + d@[1])
}

/// The piece at `c - d`.
pub open spec fn piece_minus(mv: MultiverseView, c: Coord, d: [i32; 4]) -> Option<Piece> {
    piece_at(mv, c.l - d@[3], c.t - d@[2], c.x - d@[0], c.y - d@[1])
}

/// The active-timeline bound `lim` of the multiverse: l is active iff |l| <= lim.
pub open spec fn lim_ok(mv: MultiverseView, lim: i32) -> bool {
    forall|l: i32|
        l != i32::MIN ==> (active(mv, l as int) <==> (if l < 0 {
            -l
        } else {
            l as int
        }) <= lim)
}

/// Moves `c` by (dl, dt, dx, dy); `None` when the result is off the 8x8 board or
/// its timeline or time leaves `i32`.
pub(crate) fn shift(c: Coord, dx: i32, dy: i32, dt: i32, dl: i32) -> (r: Option<Coord>)
    requires
        -16 <= dx <= 16,
        -16 <= dy <= 16,
    ensures
        r matches Some(rc) ==> rc.l == c.l + dl && rc.t == c.t + dt && rc.x == c.x + dx && rc.y
            == c.y + dy && on_board(rc.x as int, rc.y as int),
        r is None ==> !(on_board(c.x + dx, c.y + dy) && i32::MIN <= c.l + dl <= i32::MAX
            && i32::MIN <= c.t + dt <= i32::MAX),
{
    let x: i64 = c.x as i64 + dx as i64;
    let y: i64 = c.y as i64 + dy as i64;
    let t: i64 = c.t as i64 + dt as i64;
    let l: i64 = c.l as i64 + dl as i64;
    if x < 0 || x >= 8 || y < 0 || y >= 8 {
        return None;
    }
    if t < i32::MIN as i64 || t > i32::MAX as i64 || l < i32::MIN as i64 || l > i32::MAX as i64 {
        return None;
    }
    Some(Coord { l: l as i32, t: t as i32, x: x as i8, y: y as i8 })
}

/// The piece at coordinate `c`, if its board exists.
pub(crate) fn piece_at_c(mv: &Multiverse, c: Coord) -> (r: Option<Piece>)
    ensures
        r == piece_at(mv@, c.l as int, c.t as int, c.x as int, c.y as int),
{
    match mv.board(c.board()) {
        Some(b) => b.get(c.x, c.y),
        None => None,
    }
}

/// The content of square `c` when its board exists (one lookup).
pub(crate) fn square_at(mv: &Multiverse, c: Coord) -> (r: Option<Option<Piece>>)
    ensures
        r is None <==> board_at(mv@, c.l as int, c.t as int) is None,
        r matches Some(p) ==> p == piece_at(mv@, c.l as int, c.t as int, c.x as int, c.y as int),
{
    match mv.board(c.board()) {
        Some(b) => Some(b.get(c.x, c.y)),
        None => None,
    }
}

/// The timelines with indices `base .. base + tls.len()`, each looked up once.
pub(crate) struct Near<'a> {
    pub base: i64,
    pub tls: Vec<Option<&'a Timeline>>,
}

/// Entry `e` holds timeline `l` of `mv`, or nothing when there is none.
pub open spec fn near_entry(mv: MultiverseView, l: int, e: Option<&Timeline>) -> bool {
    match e {
        Some(tl) => has_tl(mv, l) && tl_at(mv, l) == tl@,
        None => !has_tl(mv, l),
    }
}

pub(crate) open spec fn near_ok(mv: MultiverseView, n: &Near) -> bool {
    &&& -0x1_0000_0000 <= n.base <= 0x1_0000_0000
    &&& n.tls@.len() <= 64
    &&& forall|i: int| 0 <= i < n.tls@.len() ==> #[trigger] near_entry(mv, n.base + i, n.tls@[i])
}

/// The timelines from two below `lo` to two above `hi` (at most 64 of them).
pub(crate) fn near_of<'a>(mv: &'a Multiverse, lo: i32, hi: i32) -> (n: Near<'a>)
    ensures
        near_ok(mv@, &n),
{
    proof {
        crate::multiverse::lemma_view_timelines(*mv);
    }
    let base: i64 = lo as i64 - 2;
    let span: i64 = hi as i64 - lo as i64 + 5;
    let count: i64 = if span < 0 {
        0
    } else if span > 64 {
        64
    } else {
        span
    };
    let mut tls: Vec<Option<&'a Timeline>> = Vec::with_capacity(64);
    let mut k: i64 = 0;
    while k < count
        invariant
            0 <= k <= count <= 64,
            tls@.len() == k,
            base == lo as i64 - 2,
            mv@.timelines.dom() == mv.timelines@.dom(),
            forall|q: i32| #[trigger] mv.timelines@.contains_key(q) ==> mv@.timelines[q] == mv.timelines@[q]@,
            forall|i: int| 0 <= i < tls@.len() ==> #[trigger] near_entry(mv@, base + i, tls@[i]),
        decreases count - k,
    {
        let li: i64 = base + k;
        if li < i32::MIN as i64 || li > i32::MAX as i64 {
            tls.push(None);
        } else {
            let lk: i32 = li as i32;
            tls.push(mv.timelines.get(&lk));
        }
        proof {
            assert(near_entry(mv@, base + k, tls@[k as int]));
        }
        k = k + 1;
    }
    Near { base, tls }
}

/// The content of square `c` when its board exists, looked up through `near` when
/// its timeline is there.
pub(crate) fn near_square(mv: &Multiverse, near: &Near, c: Coord) -> (r: Option<Option<Piece>>)
    requires
        near_ok(mv@, near),
    ensures
        r is None <==> board_at(mv@, c.l as int, c.t as int) is None,
        r matches Some(p) ==> p == piece_at(mv@, c.l as int, c.t as int, c.x as int, c.y as int),
{
    let off: i64 = c.l as i64 - near.base;
    if off >= 0 && off < near.tls.len() as i64 {
        proof {
            assert(near_entry(mv@, near.base + off, near.tls@[off as int]));
        }
        match near.tls[off as usize] {
            Some(tl) => match tl.get_board(c.t) {
                Some(b) => Some(b.get(c.x, c.y)),
                None => None,
            },
            None => None,
        }
    } else {
        square_at(mv, c)
    }
}


/// Entry `e` holds the board at (l, t) of `mv`, or nothing when there is none.
pub open spec fn hood_entry(mv: MultiverseView, l: int, t: int, e: Option<&Board>) -> bool {
    match e {
        Some(b) => board_at(mv, l, t) == Some(*b),
        None => board_at(mv, l, t) is None,
    }
}

/// `h` holds the boards at (c.l + i / 3 - 1, c.t + i % 3 - 1) for i in 0..9: every
/// board within one timeline and one time of `c`.
pub(crate) open spec fn hood_ok(mv: MultiverseView, c: Coord, h: &Vec<Option<&Board>>) -> bool {
    &&& h@.len() == 9
    &&& forall|i: int| 0 <= i < 9 ==> #[trigger] hood_entry(mv, c.l + i / 3 - 1, c.t + i % 3 - 1, h@[i])
}

/// The board at (l, t), looked up through `near` when its timeline is there.
pub(crate) fn near_board<'a>(mv: &'a Multiverse, near: &Near<'a>, l: i64, t: i64) -> (r: Option<&'a Board>)
    requires
        mv_wf(mv@),
        near_ok(mv@, near),
        -0x2_0000_0000 <= l <= 0x2_0000_0000,
    ensures
        hood_entry(mv@, l as int, t as int, r),
{
    let off: i64 = l - near.base;
    if off >= 0 && off < near.tls.len() as i64 {
        proof {
            assert(near_entry(mv@, near.base + off, near.tls@[off as int]));
        }
        match near.tls[off as usize] {
            Some(tl) => if t < i32::MIN as i64 || t > i32::MAX as i64 {
                None
            } else {
                tl.get_board(t as i32)
            },
            None => None,
        }
    } else if l < i32::MIN as i64 || l > i32::MAX as i64 || t < i32::MIN as i64 || t > i32::MAX as i64 {
        proof {
            if i32::MIN <= l <= i32::MAX && mv@.timelines.contains_key(l as i32) {
                assert(crate::multiverse::tl_wf(mv@.timelines[l as i32]));
            }
        }
        None
    } else {
        mv.board(BoardId { l: l as i32, t: t as i32 })
    }
}

/// The boards within one timeline and one time of `c`.
pub(crate) fn hood_of<'a>(mv: &'a Multiverse, near: &Near<'a>, c: Coord) -> (h: Vec<Option<&'a Board>>)
    requires
        mv_wf(mv@),
        near_ok(mv@, near),
    ensures
        hood_ok(mv@, c, &h),
{
    let mut h: Vec<Option<&'a Board>> = Vec::with_capacity(9);
    let mut i: i64 = 0;
    while i < 9
        invariant
            0 <= i <= 9,
            h@.len() == i,
            mv_wf(mv@),
            near_ok(mv@, near),
            forall|j: int| 0 <= j < i ==> #[trigger] hood_entry(mv@, c.l + j / 3 - 1, c.t + j % 3 - 1, h@[j]),
        decreases 9 - i,
    {
        let e = near_board(mv, near, c.l as i64 + i / 3 - 1, c.t as i64 + i % 3 - 1);
        h.push(e);
        i = i + 1;
    }
    h
}


/// Whether board (l, t) exists.
pub(crate) fn board_exists(mv: &Multiverse, l: i32, t: i32) -> (r: bool)
    ensures
        r == (board_at(mv@, l as int, t as int) is Some),
{
    match mv.timelines.get(&l) {
        Some(tl) => tl.get_board(t).is_some(),
        None => false,
    }
}

/// Whether `c` is a square of an existing board.
pub(crate) fn reachable(mv: &Multiverse, c: Coord) -> (r: bool)
    ensures
        r == reach(mv@, c.l as int, c.t as int, c.x as int, c.y as int),
{
    if !in_bounds(c.x, c.y) {
        return false;
    }
    board_exists(mv, c.l, c.t)
}

/// |l| <= lim, computed without overflow.
pub(crate) fn within(l: i32, lim: i32) -> (r: bool)
    ensures
        r == ((if l < 0 {
            -l
        } else {
            l as int
        }) <= lim),
{
    let a: i64 = if l < 0 {
        -(l as i64)
    } else {
        l as i64
    };
    a <= lim as i64
}

/// Room left along a ray before a coordinate leaves its range.
pub open spec fn ray_room(c: Coord, d: [i32; 4]) -> int {
    (if d@[0] > 0 {
        7 - c.x
    } else if d@[0] < 0 {
        c.x as int
    } else {
        0
    }) + (if d@[1] > 0 {
        7 - c.y
    } else if d@[1] < 0 {
        c.y as int
    } else {
        0
    }) + (if d@[2] > 0 {
        i32::MAX - c.t
    } else if d@[2] < 0 {
        c.t - i32::MIN
    } else {
        0
    }) + (if d@[3] > 0 {
        i32::MAX - c.l
    } else if d@[3] < 0 {
        c.l - i32::MIN
    } else {
        0
    })
}

/// The next square along a ray: `ray(n) -> ray(n + 1)`.
pub(crate) fn ray_step(c: Coord, d: &[i32; 4], cur: Coord, Ghost(n): Ghost<int>) -> (r: Option<
    Coord,
>)
    requires
        is_dir(*d, 1, 4),
        n >= 0,
        cur.l == ray_l(c, *d, n),
        cur.t == ray_t(c, *d, n),
        cur.x == ray_x(c, *d, n),
        cur.y == ray_y(c, *d, n),
        on_board(cur.x as int, cur.y as int),
    ensures
        r matches Some(rc) ==> rc == ray_coord(c, *d, n + 1) && rc.l == ray_l(c, *d, n + 1) && rc.t
            == ray_t(c, *d, n + 1) && rc.x == ray_x(c, *d, n + 1) && rc.y == ray_y(c, *d, n + 1)
            && on_board(rc.x as int, rc.y as int) && 0 <= ray_room(rc, *d) < ray_room(cur, *d),
        r is None ==> !on_board(ray_x(c, *d, n + 1), ray_y(c, *d, n + 1)) || !(i32::MIN
            <= ray_l(c, *d, n + 1) <= i32::MAX && i32::MIN <= ray_t(c, *d, n + 1) <= i32::MAX),
{
    shift(cur, d[0], d[1], d[2], d[3])
}

// ---------------------------------------------------------------------------
// Piece kinds present
// ---------------------------------------------------------------------------

/// No piece of `color` and kind `k` stands on any board of `mv`.
pub open spec fn kind_absent(mv: MultiverseView, color: Color, k: PieceKind) -> bool {
    forall|l: int, t: int, x: int, y: int|
        #[trigger] piece_at(mv, l, t, x, y) matches Some(p) ==> !(p.color == color && p.kind == k)
}

/// The kinds (other than the king) that pieces of one color may have somewhere.
#[derive(Copy, Clone)]
pub(crate) struct Present {
    pub pawn: bool,
    pub knight: bool,
    pub bishop: bool,
    pub rook: bool,
    pub queen: bool,
    pub unicorn: bool,
    pub dragon: bool,
    pub princess: bool,
    pub brawn: bool,
}

pub(crate) open spec fn has_kind(ps: Present, k: PieceKind) -> bool {
    match k {
        PieceKind::Pawn => ps.pawn,
        PieceKind::Knight => ps.knight,
        PieceKind::Bishop => ps.bishop,
        PieceKind::Rook => ps.rook,
        PieceKind::Queen => ps.queen,
        PieceKind::King => true,
        PieceKind::Unicorn => ps.unicorn,
        PieceKind::Dragon => ps.dragon,
        PieceKind::Princess => ps.princess,
        PieceKind::Brawn => ps.brawn,
    }
}

/// Every kind that `ps` leaves out is absent among the pieces of `color`.
pub(crate) open spec fn present_ok(mv: MultiverseView, color: Color, ps: Present) -> bool {
    forall|k: PieceKind| #![trigger has_kind(ps, k)] !has_kind(ps, k) ==> kind_absent(mv, color, k)
}

/// Every piece of `c` on board `b` has a kind that `ps` lists.
pub(crate) open spec fn board_noted(b: Board, c: Color, ps: Present) -> bool {
    forall|x: int, y: int|
        on_board(x, y) ==> (#[trigger] sq(b, x, y) matches Some(p) ==> (p.color == c ==> has_kind(ps, p.kind)))
}

pub(crate) open spec fn grows(a: Present, b: Present) -> bool {
    forall|k: PieceKind| has_kind(a, k) ==> #[trigger] has_kind(b, k)
}

impl Present {
    /// Every kind.
    pub(crate) fn all() -> (ps: Present)
        ensures
            forall|k: PieceKind| has_kind(ps, k),
    {
        Present {
            pawn: true,
            knight: true,
            bishop: true,
            rook: true,
            queen: true,
            unicorn: true,
            dragon: true,
            princess: true,
            brawn: true,
        }
    }

    fn note(&mut self, k: PieceKind)
        ensures
            has_kind(*final(self), k),
            grows(*old(self), *final(self)),
    {
        match k {
            PieceKind::Pawn => self.pawn = true,
            PieceKind::Knight => self.knight = true,
            PieceKind::Bishop => self.bishop = true,
            PieceKind::Rook => self.rook = true,
            PieceKind::Queen => self.queen = true,
            PieceKind::King => {},
            PieceKind::Unicorn => self.unicorn = true,
            PieceKind::Dragon => self.dragon = true,
            PieceKind::Princess => self.princess = true,
            PieceKind::Brawn => self.brawn = true,
        }
    }

    /// Notes the kinds of the pieces of `c` on `b`.
    fn note_board(&mut self, b: &Board, c: Color)
        ensures
            grows(*old(self), *final(self)),
            board_noted(*b, c, *final(self)),
    {
        let ghost start = *self;
        let mut y: i8 = 0;
        while y < 8
            invariant
                0 <= y <= 8,
                grows(start, *self),
                forall|x: int, yy: int| 0 <= x < 8 && 0 <= yy < y ==> (#[trigger] sq(*b, x, yy) matches Some(p) ==> (p.color == c ==> has_kind(*self, p.kind))),
            decreases 8 - y,
        {
            let mut x: i8 = 0;
            while x < 8
                invariant
                    0 <= x <= 8,
                    0 <= y < 8,
                    grows(start, *self),
                    forall|xx: int, yy: int| 0 <= xx < 8 && 0 <= yy < y ==> (#[trigger] sq(*b, xx, yy) matches Some(p) ==> (p.color == c ==> has_kind(*self, p.kind))),
                    forall|xx: int| 0 <= xx < x ==> (#[trigger] sq(*b, xx, y as int) matches Some(p) ==> (p.color == c ==> has_kind(*self, p.kind))),
                decreases 8 - x,
            {
                let ghost before = *self;
                match b.get(x, y) {
                    Some(p) => {
                        if p.color == c {
                            self.note(p.kind);
                        }
                    },
                    None => {},
                }
                proof {
                    assert forall|xx: int, yy: int| 0 <= xx < 8 && 0 <= yy < y implies (#[trigger] sq(*b, xx, yy) matches Some(p) ==> (p.color == c ==> has_kind(*self, p.kind))) by {
                        if let Some(p) = sq(*b, xx, yy) {
                            if p.color == c {
                                assert(has_kind(before, p.kind));
                            }
                        }
                    }
                    assert forall|xx: int| 0 <= xx < x + 1 implies (#[trigger] sq(*b, xx, y as int) matches Some(p) ==> (p.color == c ==> has_kind(*self, p.kind))) by {
                        if let Some(p) = sq(*b, xx, y as int) {
                            if p.color == c && xx < x {
                                assert(has_kind(before, p.kind));
                            }
                        }
                    }
                }
                x = x + 1;
            }
            y = y + 1;
        }
    }
}

/// The kinds of the pieces of `c` anywhere in `mv`.
pub(crate) fn present_kinds(mv: &Multiverse, c: Color) -> (ps: Present)
    requires
        mv_wf(mv@),
    ensures
        present_ok(mv@, c, ps),
{
    let ks = mv.timeline_keys();
    proof {
        crate::multiverse::lemma_keys_seq_props(mv@);
        crate::multiverse::lemma_view_timelines(*mv);
    }
    let mut ps = Present {
        pawn: false,
        knight: false,
        bishop: false,
        rook: false,
        queen: false,
        unicorn: false,
        dragon: false,
        princess: false,
        brawn: false,
    };
    let mut i: usize = 0;
    while i < ks.len()
        invariant
            i <= ks@.len(),
            ks@ == keys_seq(mv@),
            ks@.to_set() == mv@.timelines.dom(),
            mv@.timelines.dom() == mv.timelines@.dom(),
            forall|l: i32| #[trigger] mv.timelines@.contains_key(l) ==> mv@.timelines[l] == mv.timelines@[l]@,
            forall|j: int, q: int|
                0 <= j < i && 0 <= q < mv@.timelines[ks@[j]].boards.len() ==> board_noted(
                    #[trigger] mv@.timelines[ks@[j]].boards[q],
                    c,
                    ps,
                ),
        decreases ks@.len() - i,
    {
        let l = ks[i];
        proof {
            assert(ks@.to_set().contains(l));
        }
        let tl = mv.timelines.get(&l).unwrap();
        let ghost ps_i = ps;
        let mut q: usize = 0;
        while q < tl.boards.len()
            invariant
                q <= tl.boards@.len(),
                grows(ps_i, ps),
                forall|qq: int| 0 <= qq < q ==> board_noted(#[trigger] tl.boards@[qq], c, ps),
            decreases tl.boards@.len() - q,
        {
            let ghost before = ps;
            ps.note_board(&tl.boards[q], c);
            proof {
                assert forall|qq: int| 0 <= qq < q + 1 implies board_noted(#[trigger] tl.boards@[qq], c, ps) by {
                    if qq < q {
                        assert(board_noted(tl.boards@[qq], c, before));
                        assert forall|x: int, y: int| on_board(x, y) implies (#[trigger] sq(tl.boards@[qq], x, y) matches Some(p) ==> (p.color == c ==> has_kind(ps, p.kind))) by {
                            if let Some(p) = sq(tl.boards@[qq], x, y) {
                                if p.color == c {
                                    assert(has_kind(before, p.kind));
                                }
                            }
                        }
                    }
                }
            }
            q = q + 1;
        }
        proof {
            assert forall|j: int, qq: int|
                0 <= j < i + 1 && 0 <= qq < mv@.timelines[ks@[j]].boards.len() implies board_noted(
                    #[trigger] mv@.timelines[ks@[j]].boards[qq],
                    c,
                    ps,
                ) by {
                if j < i {
                    assert(board_noted(mv@.timelines[ks@[j]].boards[qq], c, ps_i));
                    assert forall|x: int, y: int| on_board(x, y) implies (#[trigger] sq(mv@.timelines[ks@[j]].boards[qq], x, y) matches Some(p) ==> (p.color == c ==> has_kind(ps, p.kind))) by {
                        if let Some(p) = sq(mv@.timelines[ks@[j]].boards[qq], x, y) {
                            if p.color == c {
                                assert(has_kind(ps_i, p.kind));
                            }
                        }
                    }
                } else {
                    assert(mv@.timelines[ks@[j]] == tl@);
                    assert(tl@.boards[qq] == tl.boards@[qq]);
                }
            }
        }
        i = i + 1;
    }
    proof {
        assert forall|k: PieceKind| !has_kind(ps, k) implies kind_absent(mv@, c, k) by {
            assert forall|l: int, t: int, x: int, y: int|
                #[trigger] piece_at(mv@, l, t, x, y) is Some implies !(piece_at(mv@, l, t, x, y)->0.color == c
                    && piece_at(mv@, l, t, x, y)->0.kind == k) by {
                if let Some(p) = piece_at(mv@, l, t, x, y) {
                    let li = l as i32;
                    assert(mv@.timelines.contains_key(li));
                    assert(ks@.to_set().contains(li));
                    let j = choose|j: int| 0 <= j < ks@.len() && ks@[j] == li;
                    let tlv = mv@.timelines[li];
                    let qq = t - tlv.t_start;
                    assert(board_noted(mv@.timelines[ks@[j]].boards[qq], c, ps));
                    assert(sq(tlv.boards[qq], x, y) == Some(p));
                }
            }
        }
    }
    ps
}

// ---------------------------------------------------------------------------
// Attack patterns
// ---------------------------------------------------------------------------

/// Pawn capture deltas of a pawn moving in direction `f` along y: forward on y plus
/// one step on x, t or l.
pub open spec fn pawn_delta(d: [i32; 4], f: int) -> bool {
    &&& d@[1] == f
    &&& ((unit(d@[0]) && d@[0] != 0 && d@[2] == 0 && d@[3] == 0) || (d@[0] == 0 && unit(d@[2])
        && d@[2] != 0 && d@[3] == 0) || (d@[0] == 0 && d@[2] == 0 && unit(d@[3]) && d@[3] != 0))
}

/// Brawn extra deltas: forward on t plus one step on x, y or l.
pub open spec fn brawn_t_delta(d: [i32; 4], f: int) -> bool {
    &&& d@[2] == f
    &&& ((unit(d@[0]) && d@[0] != 0 && d@[1] == 0 && d@[3] == 0) || (d@[0] == 0 && unit(d@[1])
        && d@[1] != 0 && d@[3] == 0) || (d@[0] == 0 && d@[1] == 0 && unit(d@[3]) && d@[3] != 0))
}

/// Slider kinds that attack along directions of `k` axes.
pub open spec fn threat(k: int, kind: PieceKind) -> bool {
    if k == 1 {
        kind == PieceKind::Rook || kind == PieceKind::Queen
    } else if k == 2 {
        kind == PieceKind::Bishop || kind == PieceKind::Queen || kind == PieceKind::Princess
    } else if k == 3 {
        kind == PieceKind::Unicorn || kind == PieceKind::Queen
    } else {
        kind == PieceKind::Dragon || kind == PieceKind::Queen
    }
}

/// `p` belongs to `by` and stands on an active timeline `l`.
pub open spec fn hostile(mv: MultiverseView, p: Piece, l: int, by: Color) -> bool {
    p.color == by && active(mv, l)
}

pub open spec fn knight_attack(mv: MultiverseView, c: Coord, d: [i32; 4], by: Color) -> bool {
    piece_plus(mv, c, d) matches Some(p) && hostile(mv, p, c.l + d@[3], by) && (p.kind
        == PieceKind::Knight || p.kind == PieceKind::Princess)
}

pub open spec fn pawn_attack(mv: MultiverseView, c: Coord, d: [i32; 4], by: Color) -> bool {
    piece_minus(mv, c, d) matches Some(p) && hostile(mv, p, c.l - d@[3], by) && (p.kind
        == PieceKind::Pawn || p.kind == PieceKind::Brawn)
}

pub open spec fn brawn_attack(mv: MultiverseView, c: Coord, d: [i32; 4], by: Color) -> bool {
    piece_minus(mv, c, d) matches Some(p) && hostile(mv, p, c.l - d@[3], by) && p.kind
        == PieceKind::Brawn
}

pub open spec fn king_attack(mv: MultiverseView, c: Coord, d: [i32; 4], by: Color) -> bool {
    piece_plus(mv, c, d) matches Some(p) && hostile(mv, p, c.l + d@[3], by) && p.kind
        == PieceKind::King
}

/// The first occupied square along the ray holds a slider of `by` that attacks along
/// directions of `k` axes.
pub open spec fn slide_attack(mv: MultiverseView, c: Coord, d: [i32; 4], k: int, by: Color) -> bool {
    exists|n: int|
        n >= 1 && ray_clear(mv, c, d, n) && #[trigger] ray_reach(mv, c, d, n) && (ray_piece(
            mv,
            c,
            d,
            n,
        ) matches Some(p) && hostile(mv, p, ray_l(c, d, n), by) && threat(k, p.kind))
}

/// `c` is attacked by a piece of `by` somewhere in the multiverse.
pub open spec fn attacked(mv: MultiverseView, c: Coord, by: Color) -> bool {
    ||| exists|d: [i32; 4]| is_knight_dir(d) && #[trigger] knight_attack(mv, c, d, by)
    ||| exists|d: [i32; 4]| pawn_delta(d, color_sign(by)) && #[trigger] pawn_attack(mv, c, d, by)
    ||| exists|d: [i32; 4]| brawn_t_delta(d, color_sign(by)) && #[trigger] brawn_attack(mv, c, d, by)
    ||| exists|d: [i32; 4]| is_dir(d, 1, 4) && #[trigger] king_attack(mv, c, d, by)
    ||| exists|k: int, d: [i32; 4]|
        1 <= k <= 4 && is_dir(d, k, k) && #[trigger] slide_attack(mv, c, d, k, by)
}

/// The first square, in scan order, holding the king of `c`.
pub open spec fn is_first_king(b: Board, c: Color, x: int, y: int) -> bool {
    on_board(x, y) && king_on(b, x, y, c) && forall|i: int, j: int|
        on_board(i, j) && scan_before(i, j, x, y) ==> !king_on(b, i, j, c)
}

pub open spec fn first_king(b: Board, c: Color) -> Option<(int, int)> {
    if exists|x: int, y: int| is_first_king(b, c, x, y) {
        Some(choose|x: int, y: int| is_first_king(b, c, x, y))
    } else {
        None
    }
}

/// The king of `color` on some active timeline's latest board is attacked.
pub open spec fn in_check_spec(mv: MultiverseView, color: Color) -> bool {
    exists|l: i32|
        #![trigger mv.timelines[l]]
        mv.timelines.contains_key(l) && active(mv, l as int) && (first_king(
            latest_board(mv.timelines[l]),
            color,
        ) matches Some((x, y)) && attacked(
            mv,
            coord(l as int, last_t(mv.timelines[l]), x, y),
            opposite(color),
        ))
}

/// A piece stands only on an existing board, within the integer ranges.
pub proof fn lemma_piece_some(mv: MultiverseView, l: int, t: int, x: int, y: int)
    requires
        mv_wf(mv),
        piece_at(mv, l, t, x, y) is Some || reach(mv, l, t, x, y),
    ensures
        on_board(x, y),
        i32::MIN < l <= i32::MAX,
        i32::MIN <= t <= i32::MAX,
        has_tl(mv, l),
        reach(mv, l, t, x, y),
{
    assert(mv.timelines.contains_key(l as i32));
}

/// Off the board, or outside the integer ranges, there is no piece and no square.
pub proof fn lemma_piece_none(mv: MultiverseView, l: int, t: int, x: int, y: int)
    requires
        mv_wf(mv),
        !(on_board(x, y) && i32::MIN <= l <= i32::MAX && i32::MIN <= t <= i32::MAX),
    ensures
        piece_at(mv, l, t, x, y) is None,
        !reach(mv, l, t, x, y),
{
    if piece_at(mv, l, t, x, y) is Some || reach(mv, l, t, x, y) {
        lemma_piece_some(mv, l, t, x, y);
    }
}

pub(crate) proof fn lemma_first_king(b: Board, c: Color, r: Option<(i8, i8)>)
    requires
        r matches Some((x, y)) ==> on_board(x as int, y as int) && king_on(b, x as int, y as int, c)
            && forall|i: int, j: int|
            on_board(i, j) && scan_before(i, j, x as int, y as int) ==> !king_on(b, i, j, c),
        r is None ==> forall|i: int, j: int| on_board(i, j) ==> !king_on(b, i, j, c),
    ensures
        r matches Some((x, y)) ==> first_king(b, c) == Some((x as int, y as int)),
        r is None ==> first_king(b, c) is None,
{
    if let Some((x, y)) = r {
        assert(is_first_king(b, c, x as int, y as int));
        let (x2, y2) = choose|x2: int, y2: int| is_first_king(b, c, x2, y2);
        if !(x2 == x && y2 == y) {
            if scan_before(x2, y2, x as int, y as int) {
                assert(!king_on(b, x2, y2, c));
            } else {
                assert(scan_before(x as int, y as int, x2, y2));
            }
        }
    }
}

// ---------------------------------------------------------------------------
// Attack detection
// ---------------------------------------------------------------------------

/// Checks the attacker at `c + d` (or `c - d` when `back`) against the kinds.
fn attacker_at(
    mv: &Multiverse,
    hood: &Vec<Option<&Board>>,
    near: &Near,
    c: Coord,
    d: &[i32; 4],
    back: bool,
    by: Color,
    lim: i32,
    k1: PieceKind,
    k2: PieceKind,
) -> (r: bool)
    requires
        mv_wf(mv@),
        lim_ok(mv@, lim),
        hood_ok(mv@, c, hood),
        near_ok(mv@, near),
        -2 <= d@[0] <= 2,
        -2 <= d@[1] <= 2,
        -2 <= d@[2] <= 2,
        -2 <= d@[3] <= 2,
    ensures
        !back ==> r == (piece_plus(mv@, c, *d) matches Some(p) && hostile(
            mv@,
            p,
            c.l + d@[3],
            by,
        ) && (p.kind == k1 || p.kind == k2)),
        back ==> r == (piece_minus(mv@, c, *d) matches Some(p) && hostile(
            mv@,
            p,
            c.l - d@[3],
            by,
        ) && (p.kind == k1 || p.kind == k2)),
{
    let sc = if back {
        shift(c, -d[0], -d[1], -d[2], -d[3])
    } else {
        shift(c, d[0], d[1], d[2], d[3])
    };
    match sc {
        Some(cc) => {
            let dl: i64 = cc.l as i64 - c.l as i64;
            let dt: i64 = cc.t as i64 - c.t as i64;
            let found = if -1 <= dl && dl <= 1 && -1 <= dt && dt <= 1 {
                let idx: i64 = (dl + 1) * 3 + (dt + 1);
                proof {
                    assert(0 <= idx < 9);
                    assert(idx / 3 - 1 == dl && idx % 3 - 1 == dt);
                    assert(hood_entry(mv@, c.l + idx / 3 - 1, c.t + idx % 3 - 1, hood@[idx as int]));
                }
                match hood[idx as usize] {
                    Some(b) => b.get(cc.x, cc.y),
                    None => None,
                }
            } else {
                match near_square(mv, near, cc) {
                    Some(p) => p,
                    None => None,
                }
            };
            match found {
                Some(p) => {
                    proof {
                        lemma_piece_some(mv@, cc.l as int, cc.t as int, cc.x as int, cc.y as int);
                    }
                    p.color == by && within(cc.l, lim) && (p.kind == k1 || p.kind == k2)
                },
                None => false,
            }
        },
        None => {
            proof {
                if back {
                    lemma_piece_none(mv@, c.l - d@[3], c.t - d@[2], c.x - d@[0], c.y - d@[1]);
                } else {
                    lemma_piece_none(mv@, c.l + d@[3], c.t + d@[2], c.x + d@[0], c.y + d@[1]);
                }
            }
            false
        },
    }
}


/// Stopping at a missing square: nothing along the ray can attack.
proof fn lemma_ray_gone(mv: MultiverseView, c: Coord, d: [i32; 4], m: int, k: int, by: Color)
    requires
        m >= 1,
        ray_clear(mv, c, d, m),
        !ray_reach(mv, c, d, m),
    ensures
        !slide_attack(mv, c, d, k, by),
{
    assert forall|n: int|
        n >= 1 && ray_clear(mv, c, d, n) && #[trigger] ray_reach(mv, c, d, n) implies !(ray_piece(
        mv,
        c,
        d,
        n,
    ) matches Some(p) && hostile(mv, p, ray_l(c, d, n), by) && threat(k, p.kind)) by {
        if n < m {
            assert(ray_reach(mv, c, d, n) && ray_piece(mv, c, d, n) is None);
        } else if n > m {
            assert(ray_reach(mv, c, d, m));
        }
    }
}

/// Stopping at the first occupied square: only that piece can attack.
proof fn lemma_ray_hit(mv: MultiverseView, c: Coord, d: [i32; 4], m: int, k: int, by: Color)
    requires
        m >= 1,
        ray_clear(mv, c, d, m),
        ray_reach(mv, c, d, m),
        ray_piece(mv, c, d, m) is Some,
    ensures
        slide_attack(mv, c, d, k, by) == (hostile(mv, ray_piece(mv, c, d, m)->0, ray_l(c, d, m), by)
            && threat(k, ray_piece(mv, c, d, m)->0.kind)),
{
    if slide_attack(mv, c, d, k, by) {
        let n = choose|n: int|
            n >= 1 && ray_clear(mv, c, d, n) && #[trigger] ray_reach(mv, c, d, n) && (ray_piece(
                mv,
                c,
                d,
                n,
            ) matches Some(p) && hostile(mv, p, ray_l(c, d, n), by) && threat(k, p.kind));
        if n < m {
            assert(ray_reach(mv, c, d, n) && ray_piece(mv, c, d, n) is None);
        } else if n > m {
            assert(ray_reach(mv, c, d, m) && ray_piece(mv, c, d, m) is None);
        }
    }
}

/// Whether `kind` attacks along directions of `k` axes.
fn is_threat(k: u32, kind: PieceKind) -> (r: bool)
    ensures
        r == threat(k as int, kind),
{
    if k == 1 {
        kind == PieceKind::Rook || kind == PieceKind::Queen
    } else if k == 2 {
        kind == PieceKind::Bishop || kind == PieceKind::Queen || kind == PieceKind::Princess
    } else if k == 3 {
        kind == PieceKind::Unicorn || kind == PieceKind::Queen
    } else {
        kind == PieceKind::Dragon || kind == PieceKind::Queen
    }
}

/// Walks the ray from `target` along `d` to the first occupied square and checks it.
fn slide_hits(
    mv: &Multiverse,
    home: Option<&Board>,
    near: &Near,
    lim: i32,
    target: Coord,
    d: &[i32; 4],
    k: u32,
    by: Color,
) -> (r: bool)
    requires
        mv_wf(mv@),
        lim_ok(mv@, lim),
        near_ok(mv@, near),
        home matches Some(b) ==> board_at(mv@, target.l as int, target.t as int) == Some(*b),
        1 <= k <= 4,
        is_dir(*d, k as int, k as int),
        on_board(target.x as int, target.y as int),
    ensures
        r == slide_attack(mv@, target, *d, k as int, by),
{
    let mut cur = target;
    let ghost mut n: int = 0;
    let spatial = d[2] == 0 && d[3] == 0;
    loop
        invariant
            mv_wf(mv@),
            lim_ok(mv@, lim),
            near_ok(mv@, near),
            home matches Some(b) ==> board_at(mv@, target.l as int, target.t as int) == Some(*b),
            spatial == (d@[2] == 0 && d@[3] == 0),
            1 <= k <= 4,
            is_dir(*d, k as int, k as int),
            n >= 0,
            cur.l == ray_l(target, *d, n),
            cur.t == ray_t(target, *d, n),
            cur.x == ray_x(target, *d, n),
            cur.y == ray_y(target, *d, n),
            on_board(cur.x as int, cur.y as int),
            ray_clear(mv@, target, *d, n + 1),
        decreases ray_room(cur, *d),
    {
        let next = ray_step(target, d, cur, Ghost(n));
        match next {
            None => {
                proof {
                    lemma_piece_none(
                        mv@,
                        ray_l(target, *d, n + 1),
                        ray_t(target, *d, n + 1),
                        ray_x(target, *d, n + 1),
                        ray_y(target, *d, n + 1),
                    );
                    lemma_ray_gone(mv@, target, *d, n + 1, k as int, by);
                }
                return false;
            },
            Some(nc) => {
                let sq = match home {
                    Some(b) => if spatial {
                        Some(b.get(nc.x, nc.y))
                    } else {
                        near_square(mv, near, nc)
                    },
                    None => near_square(mv, near, nc),
                };
                let p_here = match sq {
                    None => {
                        proof {
                            lemma_ray_gone(mv@, target, *d, n + 1, k as int, by);
                        }
                        return false;
                    },
                    Some(p) => p,
                };
                proof {
                    assert(reach(mv@, nc.l as int, nc.t as int, nc.x as int, nc.y as int));
                }
                match p_here {
                    None => {
                        proof {
                            assert forall|j: int| 1 <= j < n + 2 implies #[trigger] ray_reach(
                                mv@,
                                target,
                                *d,
                                j,
                            ) && ray_piece(mv@, target, *d, j) is None by {
                                if j < n + 1 {
                                    assert(ray_reach(mv@, target, *d, j));
                                }
                            }
                            n = n + 1;
                        }
                        cur = nc;
                    },
                    Some(p) => {
                        proof {
                            lemma_ray_hit(mv@, target, *d, n + 1, k as int, by);
                            lemma_piece_some(
                                mv@,
                                nc.l as int,
                                nc.t as int,
                                nc.x as int,
                                nc.y as int,
                            );
                        }
                        return p.color == by && within(nc.l, lim) && is_threat(k, p.kind);
                    },
                }
            },
        }
    }
}

/// Every pawn capture delta of direction `f` is one of the six listed.
pub(crate) proof fn lemma_pawn_cover(ds: [[i32; 4]; 6], f: i32, d: [i32; 4])
    requires
        ds@[0]@ == seq![-1i32, f, 0i32, 0i32],
        ds@[1]@ == seq![1i32, f, 0i32, 0i32],
        ds@[2]@ == seq![0i32, f, 1i32, 0i32],
        ds@[3]@ == seq![0i32, f, -1i32, 0i32],
        ds@[4]@ == seq![0i32, f, 0i32, 1i32],
        ds@[5]@ == seq![0i32, f, 0i32, -1i32],
        pawn_delta(d, f as int),
    ensures
        exists|j: int| 0 <= j < 6 && ds@[j] == d,
{
    let j = if d@[0] == -1 {
        0
    } else if d@[0] == 1 {
        1
    } else if d@[2] == 1 {
        2
    } else if d@[2] == -1 {
        3
    } else if d@[3] == 1 {
        4
    } else {
        5
    };
    assert(ds@[j]@ =~= d@);
    assert(ds@[j] == d);
}

/// Every Brawn time-forward delta of direction `f` is one of the six listed.
pub(crate) proof fn lemma_brawn_cover(ds: [[i32; 4]; 6], f: i32, d: [i32; 4])
    requires
        ds@[0]@ == seq![1i32, 0i32, f, 0i32],
        ds@[1]@ == seq![-1i32, 0i32, f, 0i32],
        ds@[2]@ == seq![0i32, 1i32, f, 0i32],
        ds@[3]@ == seq![0i32, -1i32, f, 0i32],
        ds@[4]@ == seq![0i32, 0i32, f, 1i32],
        ds@[5]@ == seq![0i32, 0i32, f, -1i32],
        brawn_t_delta(d, f as int),
    ensures
        exists|j: int| 0 <= j < 6 && ds@[j] == d,
{
    let j = if d@[0] == 1 {
        0
    } else if d@[0] == -1 {
        1
    } else if d@[1] == 1 {
        2
    } else if d@[1] == -1 {
        3
    } else if d@[3] == 1 {
        4
    } else {
        5
    };
    assert(ds@[j]@ =~= d@);
    assert(ds@[j] == d);
}

/// Whether some kind that slides along directions of `k` axes may be present.
fn family_on(ps: Present, k: u32) -> (r: bool)
    ensures
        r == exists|kind: PieceKind| threat(k as int, kind) && has_kind(ps, kind),
{
    proof {
        if ps.queen {
            assert(threat(k as int, PieceKind::Queen) && has_kind(ps, PieceKind::Queen));
        }
    }
    if k == 1 {
        proof {
            if ps.rook {
                assert(threat(k as int, PieceKind::Rook) && has_kind(ps, PieceKind::Rook));
            }
        }
        ps.rook || ps.queen
    } else if k == 2 {
        proof {
            if ps.bishop {
                assert(threat(k as int, PieceKind::Bishop) && has_kind(ps, PieceKind::Bishop));
            }
            if ps.princess {
                assert(threat(k as int, PieceKind::Princess) && has_kind(ps, PieceKind::Princess));
            }
        }
        ps.bishop || ps.queen || ps.princess
    } else if k == 3 {
        proof {
            if ps.unicorn {
                assert(threat(k as int, PieceKind::Unicorn) && has_kind(ps, PieceKind::Unicorn));
            }
        }
        ps.unicorn || ps.queen
    } else {
        proof {
            if ps.dragon {
                assert(threat(k as int, PieceKind::Dragon) && has_kind(ps, PieceKind::Dragon));
            }
        }
        ps.dragon || ps.queen
    }
}

/// Direct attack test: is `target` attacked by a piece of `by` anywhere in the
/// multiverse (knight leaps, pawn and Brawn diagonals, king steps, slider rays)?
pub(crate) fn is_attacked<'a>(mv: &'a Multiverse, tb: &Tables, near: &Near<'a>, lim: i32, target: Coord, by: Color, ps: Present) -> (r:
    bool)
    requires
        mv_wf(mv@),
        near_ok(mv@, near),
        tables_ok(tb),
        lim_ok(mv@, lim),
        present_ok(mv@, by, ps),
        on_board(target.x as int, target.y as int),
    ensures
        r == attacked(mv@, target, by),
{
    let home = mv.board(target.board());
    let hood = hood_of(mv, near, target);
    // Knight attacks.
    let kn = &tb.knight;
    let kn_on = ps.knight || ps.princess;
    let mut i: usize = 0;
    while kn_on && i < kn.len()
        invariant
            i <= kn@.len(),
            knight_table(kn@),
            mv_wf(mv@),
            lim_ok(mv@, lim),
            near_ok(mv@, near),
            hood_ok(mv@, target, &hood),
            home matches Some(b) ==> board_at(mv@, target.l as int, target.t as int) == Some(*b),
            forall|j: int| 0 <= j < i ==> !knight_attack(mv@, target, #[trigger] kn@[j], by),
        decreases kn@.len() - i,
    {
        proof {
            crate::geometry::lemma_knight_axes(kn@[i as int]);
        }
        if attacker_at(mv, &hood, near, target, &kn[i], false, by, lim, PieceKind::Knight, PieceKind::Princess) {
            proof {
                assert(knight_attack(mv@, target, kn@[i as int], by));
                assert(is_knight_dir(kn@[i as int]));
            }
            return true;
        }
        i = i + 1;
    }
    proof {
        assert forall|d: [i32; 4]| is_knight_dir(d) implies !knight_attack(mv@, target, d, by) by {
            if kn_on {
                assert(kn@.contains(d));
                let j = choose|j: int| 0 <= j < kn@.len() && kn@[j] == d;
                assert(!knight_attack(mv@, target, kn@[j], by));
            } else {
                assert(!has_kind(ps, PieceKind::Knight) && !has_kind(ps, PieceKind::Princess));
                assert(kind_absent(mv@, by, PieceKind::Knight));
                assert(kind_absent(mv@, by, PieceKind::Princess));
                if let Some(p) = piece_plus(mv@, target, d) {
                    assert(piece_at(mv@, target.l + d@[3], target.t + d@[2], target.x + d@[0], target.y + d@[1]) == Some(p));
                }
            }
        }
    }
    // Pawn attacks: a pawn of `by` at target - d attacks along +d.
    let fwd = by.sign();
    let pawn_deltas: [[i32; 4]; 6] = [
        [-1, fwd, 0, 0],
        [1, fwd, 0, 0],
        [0, fwd, 1, 0],
        [0, fwd, -1, 0],
        [0, fwd, 0, 1],
        [0, fwd, 0, -1],
    ];
    let pawn_on = ps.pawn || ps.brawn;
    let mut i: usize = 0;
    while pawn_on && i < 6
        invariant
            i <= 6,
            fwd == color_sign(by),
            pawn_deltas@[0]@ == seq![-1i32, fwd, 0i32, 0i32],
            pawn_deltas@[1]@ == seq![1i32, fwd, 0i32, 0i32],
            pawn_deltas@[2]@ == seq![0i32, fwd, 1i32, 0i32],
            pawn_deltas@[3]@ == seq![0i32, fwd, -1i32, 0i32],
            pawn_deltas@[4]@ == seq![0i32, fwd, 0i32, 1i32],
            pawn_deltas@[5]@ == seq![0i32, fwd, 0i32, -1i32],
            mv_wf(mv@),
            lim_ok(mv@, lim),
            near_ok(mv@, near),
            hood_ok(mv@, target, &hood),
            home matches Some(b) ==> board_at(mv@, target.l as int, target.t as int) == Some(*b),
            forall|j: int|
                0 <= j < i ==> !pawn_attack(mv@, target, #[trigger] pawn_deltas@[j], by),
        decreases 6 - i,
    {
        if attacker_at(mv, &hood, near, target, &pawn_deltas[i], true, by, lim, PieceKind::Pawn, PieceKind::Brawn) {
            proof {
                assert(pawn_delta(pawn_deltas@[i as int], color_sign(by)));
                assert(pawn_attack(mv@, target, pawn_deltas@[i as int], by));
            }
            return true;
        }
        i = i + 1;
    }
    proof {
        assert forall|d: [i32; 4]| pawn_delta(d, color_sign(by)) implies !pawn_attack(
            mv@,
            target,
            d,
            by,
        ) by {
            if pawn_on {
                lemma_pawn_cover(pawn_deltas, fwd, d);
                let j = choose|j: int| 0 <= j < 6 && pawn_deltas@[j] == d;
                assert(!pawn_attack(mv@, target, pawn_deltas@[j], by));
            } else {
                assert(!has_kind(ps, PieceKind::Pawn) && !has_kind(ps, PieceKind::Brawn));
                assert(kind_absent(mv@, by, PieceKind::Pawn));
                assert(!has_kind(ps, PieceKind::Brawn));
                assert(kind_absent(mv@, by, PieceKind::Brawn));
                if let Some(p) = piece_minus(mv@, target, d) {
                    assert(piece_at(mv@, target.l - d@[3], target.t - d@[2], target.x - d@[0], target.y - d@[1]) == Some(p));
                }
            }
        }
    }
    // Brawn attacks along the time-forward diagonals.
    let brawn_t_deltas: [[i32; 4]; 6] = [
        [1, 0, fwd, 0],
        [-1, 0, fwd, 0],
        [0, 1, fwd, 0],
        [0, -1, fwd, 0],
        [0, 0, fwd, 1],
        [0, 0, fwd, -1],
    ];
    let brawn_on = ps.brawn;
    let mut i: usize = 0;
    while brawn_on && i < 6
        invariant
            i <= 6,
            fwd == color_sign(by),
            brawn_t_deltas@[0]@ == seq![1i32, 0i32, fwd, 0i32],
            brawn_t_deltas@[1]@ == seq![-1i32, 0i32, fwd, 0i32],
            brawn_t_deltas@[2]@ == seq![0i32, 1i32, fwd, 0i32],
            brawn_t_deltas@[3]@ == seq![0i32, -1i32, fwd, 0i32],
            brawn_t_deltas@[4]@ == seq![0i32, 0i32, fwd, 1i32],
            brawn_t_deltas@[5]@ == seq![0i32, 0i32, fwd, -1i32],
            mv_wf(mv@),
            lim_ok(mv@, lim),
            near_ok(mv@, near),
            hood_ok(mv@, target, &hood),
            home matches Some(b) ==> board_at(mv@, target.l as int, target.t as int) == Some(*b),
            forall|j: int|
                0 <= j < i ==> !brawn_attack(mv@, target, #[trigger] brawn_t_deltas@[j], by),
        decreases 6 - i,
    {
        if attacker_at(
            mv,
            &hood,
            near,
            target,
            &brawn_t_deltas[i],
            true,
            by,
            lim,
            PieceKind::Brawn,
            PieceKind::Brawn,
        ) {
            proof {
                assert(brawn_t_delta(brawn_t_deltas@[i as int], color_sign(by)));
                assert(brawn_attack(mv@, target, brawn_t_deltas@[i as int], by));
            }
            return true;
        }
        i = i + 1;
    }
    proof {
        assert forall|d: [i32; 4]| brawn_t_delta(d, color_sign(by)) implies !brawn_attack(
            mv@,
            target,
            d,
            by,
        ) by {
            if brawn_on {
                lemma_brawn_cover(brawn_t_deltas, fwd, d);
                let j = choose|j: int| 0 <= j < 6 && brawn_t_deltas@[j] == d;
                assert(!brawn_attack(mv@, target, brawn_t_deltas@[j], by));
            } else {
                assert(!has_kind(ps, PieceKind::Brawn));
                assert(kind_absent(mv@, by, PieceKind::Brawn));
                if let Some(p) = piece_minus(mv@, target, d) {
                    assert(piece_at(mv@, target.l - d@[3], target.t - d@[2], target.x - d@[0], target.y - d@[1]) == Some(p));
                }
            }
        }
    }
    // King attacks, board by board around the target: group g is the board at
    // (l + g / 3 - 1, t + g % 3 - 1), and within it square e is at
    // (x + e / 3 - 1, y + e % 3 - 1).
    let mut g: i64 = 0;
    while g < 9
        invariant
            0 <= g <= 9,
            mv_wf(mv@),
            lim_ok(mv@, lim),
            hood_ok(mv@, target, &hood),
            on_board(target.x as int, target.y as int),
            forall|d: [i32; 4]|
                is_dir(d, 1, 4) && (d@[3] + 1) * 3 + (d@[2] + 1) < g ==> !#[trigger] king_attack(mv@, target, d, by),
        decreases 9 - g,
    {
        let dl: i64 = g / 3 - 1;
        let dt: i64 = g % 3 - 1;
        proof {
            assert(hood_entry(mv@, target.l + g / 3 - 1, target.t + g % 3 - 1, hood@[g as int]));
        }
        match hood[g as usize] {
            None => {
                proof {
                    assert forall|d: [i32; 4]|
                        is_dir(d, 1, 4) && (d@[3] + 1) * 3 + (d@[2] + 1) < g + 1 implies !#[trigger] king_attack(mv@, target, d, by) by {
                        if (d@[3] + 1) * 3 + (d@[2] + 1) == g {
                            assert(d@[3] == dl && d@[2] == dt);
                            assert(board_at(mv@, target.l + d@[3], target.t + d@[2]) is None);
                        }
                    }
                }
            },
            Some(b) => {
                let mut e: i64 = 0;
                while e < 9
                    invariant
                        0 <= e <= 9,
                        0 <= g < 9,
                        dl == g / 3 - 1,
                        dt == g % 3 - 1,
                        mv_wf(mv@),
                        lim_ok(mv@, lim),
                        on_board(target.x as int, target.y as int),
                        board_at(mv@, target.l + dl, target.t + dt) == Some(*b),
                        forall|d: [i32; 4]|
                            is_dir(d, 1, 4) && (d@[3] + 1) * 3 + (d@[2] + 1) < g ==> !#[trigger] king_attack(mv@, target, d, by),
                        forall|d: [i32; 4]|
                            is_dir(d, 1, 4) && (d@[3] + 1) * 3 + (d@[2] + 1) == g && (d@[0] + 1) * 3 + (d@[1] + 1) < e
                                ==> !#[trigger] king_attack(mv@, target, d, by),
                    decreases 9 - e,
                {
                    let dx: i64 = e / 3 - 1;
                    let dy: i64 = e % 3 - 1;
                    let x: i64 = target.x as i64 + dx;
                    let y: i64 = target.y as i64 + dy;
                    let ghost d: [i32; 4] = [dx as i32, dy as i32, dt as i32, dl as i32];
                    proof {
                        assert(d@[0] == dx && d@[1] == dy && d@[2] == dt && d@[3] == dl);
                        assert((d@[3] + 1) * 3 + (d@[2] + 1) == g);
                        assert((d@[0] + 1) * 3 + (d@[1] + 1) == e);
                    }
                    if !(dx == 0 && dy == 0 && dt == 0 && dl == 0) && 0 <= x && x < 8 && 0 <= y && y < 8 {
                        proof {
                            assert(is_dir(d, 1, 4));
                            assert(piece_plus(mv@, target, d) == board_get(*b, x as int, y as int));
                        }
                        match b.get(x as i8, y as i8) {
                            Some(p) => {
                                if p.kind == PieceKind::King && p.color == by {
                                    let lk: i64 = target.l as i64 + dl;
                                    proof {
                                        assert(mv@.timelines.contains_key(lk as i32));
                                    }
                                    if within(lk as i32, lim) {
                                        proof {
                                            assert(king_attack(mv@, target, d, by));
                                        }
                                        return true;
                                    }
                                }
                            },
                            None => {},
                        }
                    }
                    proof {
                        assert forall|d2: [i32; 4]|
                            is_dir(d2, 1, 4) && (d2@[3] + 1) * 3 + (d2@[2] + 1) == g && (d2@[0] + 1) * 3 + (d2@[1] + 1) < e + 1
                                implies !#[trigger] king_attack(mv@, target, d2, by) by {
                            if (d2@[0] + 1) * 3 + (d2@[1] + 1) == e {
                                assert(d2@[0] == dx && d2@[1] == dy && d2@[2] == dt && d2@[3] == dl);
                                assert(d2@ =~= d@);
                                assert(d2 == d);
                                if !(0 <= x && x < 8 && 0 <= y && y < 8) {
                                    assert(piece_plus(mv@, target, d2) is None);
                                }
                            }
                        }
                    }
                    e = e + 1;
                }
                proof {
                    assert forall|d: [i32; 4]|
                        is_dir(d, 1, 4) && (d@[3] + 1) * 3 + (d@[2] + 1) < g + 1 implies !#[trigger] king_attack(mv@, target, d, by) by {
                        if (d@[3] + 1) * 3 + (d@[2] + 1) == g {
                            assert((d@[0] + 1) * 3 + (d@[1] + 1) < 9);
                        }
                    }
                }
            },
        }
        g = g + 1;
    }
    proof {
        assert forall|d: [i32; 4]| is_dir(d, 1, 4) implies !king_attack(mv@, target, d, by) by {
            assert((d@[3] + 1) * 3 + (d@[2] + 1) < 9);
        }
    }
    // Slider attacks, per number of axes.
    let mut k: u32 = 1;
    while k <= 4
        invariant
            1 <= k <= 5,
            present_ok(mv@, by, ps),
            tables_ok(tb),
            mv_wf(mv@),
            lim_ok(mv@, lim),
            near_ok(mv@, near),
            hood_ok(mv@, target, &hood),
            home matches Some(b) ==> board_at(mv@, target.l as int, target.t as int) == Some(*b),
            on_board(target.x as int, target.y as int),
            forall|kk: int, d: [i32; 4]|
                1 <= kk < k && is_dir(d, kk, kk) ==> !#[trigger] slide_attack(
                    mv@,
                    target,
                    d,
                    kk,
                    by,
                ),
        decreases 5 - k,
    {
        let ds = tb.dirs(k, k);
        let fam_on = family_on(ps, k);
        let mut i: usize = 0;
        while fam_on && i < ds.len()
            invariant
                i <= ds@.len(),
                1 <= k <= 4,
                dir_table(ds@, k as int, k as int),
                mv_wf(mv@),
                lim_ok(mv@, lim),
            near_ok(mv@, near),
                home matches Some(b) ==> board_at(mv@, target.l as int, target.t as int) == Some(*b),
            home matches Some(b) ==> board_at(mv@, target.l as int, target.t as int) == Some(*b),
                on_board(target.x as int, target.y as int),
                forall|j: int|
                    0 <= j < i ==> !slide_attack(mv@, target, #[trigger] ds@[j], k as int, by),
            decreases ds@.len() - i,
        {
            proof {
                assert(is_dir(ds@[i as int], k as int, k as int));
            }
            if slide_hits(mv, home, near, lim, target, &ds[i], k, by) {
                return true;
            }
            i = i + 1;
        }
        proof {
            assert forall|kk: int, d: [i32; 4]|
                1 <= kk < k + 1 && is_dir(d, kk, kk) implies !#[trigger] slide_attack(
                mv@,
                target,
                d,
                kk,
                by,
            ) by {
                if kk == k {
                    if fam_on {
                        assert(ds@.contains(d));
                        let j = choose|j: int| 0 <= j < ds@.len() && ds@[j] == d;
                        assert(!slide_attack(mv@, target, ds@[j], k as int, by));
                    } else if slide_attack(mv@, target, d, kk, by) {
                        let n = choose|n: int|
                            n >= 1 && ray_clear(mv@, target, d, n) && #[trigger] ray_reach(mv@, target, d, n) && (ray_piece(
                                mv@,
                                target,
                                d,
                                n,
                            ) matches Some(p) && hostile(mv@, p, ray_l(target, d, n), by) && threat(kk, p.kind));
                        let p = ray_piece(mv@, target, d, n)->0;
                        assert(!has_kind(ps, p.kind));
                        assert(kind_absent(mv@, by, p.kind));
                        assert(piece_at(mv@, ray_l(target, d, n), ray_t(target, d, n), ray_x(target, d, n), ray_y(target, d, n)) == Some(p));
                    }
                }
            }
        }
        k = k + 1;
    }
    false
}


/// `in_check` with the tables handed in.
pub(crate) fn in_check_with(mv: &Multiverse, tb: &Tables, color: Color) -> (r: bool)
    requires
        mv_wf(mv@),
        tables_ok(tb),
    ensures
        r == in_check_spec(mv@, color),
{
    let ps = present_kinds(mv, color.flip());
    in_check_given(mv, tb, color, ps)
}

/// `in_check`, knowing which kinds the opponent's pieces may have.
pub(crate) fn in_check_given(mv: &Multiverse, tb: &Tables, color: Color, ps: Present) -> (r: bool)
    requires
        mv_wf(mv@),
        tables_ok(tb),
        present_ok(mv@, opposite(color), ps),
    ensures
        r == in_check_spec(mv@, color),
{
    let ks = mv.timeline_keys();
    let lim = mv.limit_in(&ks);
    proof {
        crate::multiverse::lemma_keys_seq_props(mv@);
        crate::multiverse::lemma_view_timelines(*mv);
    }
    let opp = color.flip();
    let near = if ks.len() > 0 {
        near_of(mv, ks[0], ks[ks.len() - 1])
    } else {
        near_of(mv, 0, 0)
    };
    let mut i: usize = 0;
    while i < ks.len()
        invariant
            i <= ks@.len(),
            ks@ == keys_seq(mv@),
            ks@.to_set() == mv@.timelines.dom(),
            mv@.timelines.dom() == mv.timelines@.dom(),
            forall|l: i32| #[trigger] mv.timelines@.contains_key(l) ==> mv@.timelines[l] == mv.timelines@[l]@,
            mv_wf(mv@),
            tables_ok(tb),
            lim_ok(mv@, lim),
            opp == opposite(color),
            present_ok(mv@, opp, ps),
            near_ok(mv@, &near),
            forall|j: int|
                0 <= j < i ==> !(active(mv@, ks@[j] as int) && (first_king(
                    latest_board(#[trigger] mv@.timelines[ks@[j]]),
                    color,
                ) matches Some((x, y)) && attacked(
                    mv@,
                    coord(ks@[j] as int, last_t(mv@.timelines[ks@[j]]), x, y),
                    opp,
                ))),
        decreases ks@.len() - i,
    {
        let l = ks[i];
        proof {
            assert(ks@.to_set().contains(l));
        }
        let tl = mv.timelines.get(&l).unwrap();
        if within(l, lim) {
            let t = tl.latest_t();
            let b = &tl.boards[tl.boards.len() - 1];
            let fk = b.find_king(color);
            proof {
                lemma_first_king(*b, color, fk);
            }
            match fk {
                Some((x, y)) => {
                    let c = Coord::new(l, t, x, y);
                    if is_attacked(mv, tb, &near, lim, c, opp, ps) {
                        proof {
                            assert(c == coord(l as int, last_t(mv@.timelines[l]), x as int, y as int));
                            assert(mv@.timelines.contains_key(l));
                        }
                        return true;
                    }
                    proof {
                        assert(c == coord(l as int, last_t(mv@.timelines[l]), x as int, y as int));
                    }
                },
                None => {},
            }
        }
        i = i + 1;
    }
    proof {
        assert forall|l: i32| #![trigger mv@.timelines[l]]
            mv@.timelines.contains_key(l) implies !(active(mv@, l as int) && (first_king(
            latest_board(mv@.timelines[l]),
            color,
        ) matches Some((x, y)) && attacked(
            mv@,
            coord(l as int, last_t(mv@.timelines[l]), x, y),
            opposite(color),
        ))) by {
            assert(ks@.to_set().contains(l));
            let j = choose|j: int| 0 <= j < ks@.len() && ks@[j] == l;
            assert(mv@.timelines[ks@[j]] == mv@.timelines[l]);
        }
    }
    false
}

/// A bishop attacks along its diagonals: when the first occupied square of a ray from
/// `c` along a two-axis diagonal holds a bishop of `by` on an active timeline, `c` is
/// attacked by `by`.
pub proof fn lemma_bishop_attacks_along_diagonal(mv: MultiverseView, c: Coord, d: [i32; 4], n: int, by: Color)
    requires
        is_dir(d, 2, 2),
        n >= 1,
        ray_clear(mv, c, d, n),
        ray_reach(mv, c, d, n),
        ray_piece(mv, c, d, n) matches Some(p) && p.kind == PieceKind::Bishop && p.color == by,
        active(mv, ray_l(c, d, n)),
    ensures
        attacked(mv, c, by),
{
    assert(slide_attack(mv, c, d, 2, by));
}

/// A king facing such a bishop is in check: when the first king of `color` on the
/// latest board of an active timeline sees a bishop of the other side at the end of
/// a clear two-axis diagonal, `color` is in check.
pub proof fn lemma_bishop_gives_check(mv: MultiverseView, color: Color, l: i32, x: int, y: int, d: [i32; 4], n: int)
    requires
        mv.timelines.contains_key(l),
        active(mv, l as int),
        first_king(latest_board(mv.timelines[l]), color) == Some((x, y)),
        is_dir(d, 2, 2),
        n >= 1,
        ray_clear(mv, coord(l as int, last_t(mv.timelines[l]), x, y), d, n),
        ray_reach(mv, coord(l as int, last_t(mv.timelines[l]), x, y), d, n),
        ray_piece(mv, coord(l as int, last_t(mv.timelines[l]), x, y), d, n) matches Some(p) && p.kind
            == PieceKind::Bishop && p.color == opposite(color),
        active(mv, ray_l(coord(l as int, last_t(mv.timelines[l]), x, y), d, n)),
    ensures
        in_check_spec(mv, color),
{
    let c = coord(l as int, last_t(mv.timelines[l]), x, y);
    lemma_bishop_attacks_along_diagonal(mv, c, d, n, opposite(color));
    assert(mv.timelines.contains_key(l) && active(mv, l as int) && (first_king(
        latest_board(mv.timelines[l]),
        color,
    ) matches Some((x, y)) && attacked(mv, coord(l as int, last_t(mv.timelines[l]), x, y), opposite(color))));
}

/// Every slider attacks along its own directions: a rook or queen along one axis, a
/// bishop, queen or princess along two, a unicorn or queen along three, a dragon or
/// queen along four. When the first occupied square of such a ray from `c` holds one
/// of these pieces of `by` on an active timeline, `c` is attacked by `by`.
pub proof fn lemma_sliders_attack_along_their_rays(mv: MultiverseView, c: Coord, d: [i32; 4], k: int, n: int, by: Color)
    requires
        1 <= k <= 4,
        is_dir(d, k, k),
        n >= 1,
        ray_clear(mv, c, d, n),
        ray_reach(mv, c, d, n),
        ray_piece(mv, c, d, n) matches Some(p) && p.color == by && {
            ||| k == 1 && (p.kind == PieceKind::Rook || p.kind == PieceKind::Queen)
            ||| k == 2 && (p.kind == PieceKind::Bishop || p.kind == PieceKind::Queen || p.kind == PieceKind::Princess)
            ||| k == 3 && (p.kind == PieceKind::Unicorn || p.kind == PieceKind::Queen)
            ||| k == 4 && (p.kind == PieceKind::Dragon || p.kind == PieceKind::Queen)
        },
        active(mv, ray_l(c, d, n)),
    ensures
        attacked(mv, c, by),
{
    assert(slide_attack(mv, c, d, k, by));
}

/// A knight or princess of `by` on an active timeline attacks every square a knight's
/// leap away.
pub proof fn lemma_knights_attack_by_leaps(mv: MultiverseView, c: Coord, d: [i32; 4], by: Color)
    requires
        is_knight_dir(d),
        piece_at(mv, c.l + d@[3], c.t + d@[2], c.x + d@[0], c.y + d@[1]) matches Some(p) && p.color == by && (p.kind
            == PieceKind::Knight || p.kind == PieceKind::Princess),
        active(mv, c.l + d@[3]),
    ensures
        attacked(mv, c, by),
{
    assert(knight_attack(mv, c, d, by));
}

/// A king of `by` on an active timeline attacks every square one step away along any
/// one to four axes.
pub proof fn lemma_kings_attack_adjacent_squares(mv: MultiverseView, c: Coord, d: [i32; 4], by: Color)
    requires
        is_dir(d, 1, 4),
        piece_at(mv, c.l + d@[3], c.t + d@[2], c.x + d@[0], c.y + d@[1]) matches Some(p) && p.color == by && p.kind
            == PieceKind::King,
        active(mv, c.l + d@[3]),
    ensures
        attacked(mv, c, by),
{
    assert(king_attack(mv, c, d, by));
}

} // verus!
