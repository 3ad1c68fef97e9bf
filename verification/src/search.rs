//! Negamax alpha-beta search over turn plans with a transposition table.
//!
//! Iterative deepening with aspiration windows and a soft deadline, principal
//! variation search with null-window re-searches, late move reduction for quiet
//! late plans, killer and history ordering keyed on plan signatures, check
//! extensions, mate-distance scores, and a capture-only quiescence search.

use std::collections::HashMap;
use std::time::{Duration, Instant};

use vstd::prelude::*;

use crate::apply::{applicable, apply_turn, is_applicable, plan_applicable, step, steps, turn_result};
use crate::eval::{evaluate_wide, piece_value, piece_worth};
use crate::attack::{in_check_spec, in_check_with};
use crate::geometry::{tables_ok, Tables};
use crate::legal::{
    copy_plan, distinct_plans_from, has_plan, legal_plans_with, legal_plan, lemma_legal_applicable, required_boards,
    required_source_boards, MAX_PLANS_PER_POSITION, MAX_TURN_LENGTH,
};
use crate::board::{board_get, sq};
use crate::movegen::{capture_moves_with, from_board_move};
use crate::moves::{Move, MoveKind, TurnPlan};
use crate::multiverse::{count_eq, insufficient, mv_wf, piece_at, Multiverse, MultiverseView};
use crate::types::{BoardId, Color, PieceKind};
use crate::zobrist::{kind_code, position_hash, zobrist};

verus! {

broadcast use vstd::std_specs::hash::group_hash_axioms;

/// The score of a mate, before the distance adjustment.
pub const MATE: i32 = 1_000_000;

/// Plies for which killer moves are kept.
pub const MAX_PLY: usize = 64;

/// The deepest iteration a search runs: the history bonus of a cut-off, the square of
/// the depth, stays in the `i32` range up to this depth (a deadline ends any real
/// search long before it).
pub const MAX_SEARCH_DEPTH: u32 = 46_340;

/// A requested search depth, held to `MAX_SEARCH_DEPTH`.
pub open spec fn depth_cap(d: u32) -> u32 {
    if d < MAX_SEARCH_DEPTH {
        d
    } else {
        MAX_SEARCH_DEPTH
    }
}

/// Depth limit of the quiescence search.
pub const QS_MAX_PLY: u32 = 4;

/// Captures examined per quiescence node.
pub const QS_MOVE_LIMIT: usize = 8;

/// The outcome of a search.
pub struct SearchResult {
    pub best: Option<TurnPlan>,
    pub score: i32,
    pub nodes: u64,
    pub depth: u32,
    pub tt_hits: u64,
    pub elapsed_ms: u128,
}

// ---------------------------------------------------------------------------
// Clock
// ---------------------------------------------------------------------------

#[verifier::external_type_specification]
#[verifier::external_body]
pub struct ExInstant(Instant);

/// `Instant::now`: the current time. Nothing is claimed of it.
#[verifier::external_body]
fn instant_now() -> (r: Instant) {
    Instant::now()
}

/// `Instant::checked_add`: the instant `d` after `start`, `None` when it cannot be
/// represented. Nothing is claimed of the result.
#[verifier::external_body]
fn instant_checked_add(start: &Instant, d: Duration) -> (r: Option<Instant>) {
    start.checked_add(d)
}

/// `Duration::from_millis`. Nothing is claimed of the result.
#[verifier::external_body]
fn duration_from_millis(ms: u64) -> (r: Duration) {
    Duration::from_millis(ms)
}

/// `>=` on instants (`PartialOrd::ge`): whether `now` is at or after `deadline`.
/// Nothing is claimed of the result.
#[verifier::external_body]
fn instant_reached(now: &Instant, deadline: &Instant) -> (r: bool) {
    now >= deadline
}

/// `Instant::elapsed`: the time since `start`. Nothing is claimed of the result.
#[verifier::external_body]
fn instant_elapsed(start: &Instant) -> (r: Duration) {
    start.elapsed()
}

/// `Duration::as_millis`. Nothing is claimed of the result.
#[verifier::external_body]
fn duration_as_millis(d: &Duration) -> (r: u128) {
    d.as_millis()
}

/// Whether the deadline has passed; `None` is a deadline that never comes.
fn past(deadline: &Option<Instant>) -> (r: bool)
    ensures
        deadline is None ==> !r,
{
    match deadline {
        Some(d) => {
            let now = instant_now();
            instant_reached(&now, d)
        },
        None => false,
    }
}

/// Milliseconds since `start`.
fn elapsed_ms(start: &Instant) -> u128 {
    let d = instant_elapsed(start);
    duration_as_millis(&d)
}

// ---------------------------------------------------------------------------
// Score arithmetic
// ---------------------------------------------------------------------------

/// Negation that keeps to the `i32` range.
pub open spec fn neg_score(v: i32) -> i32 {
    if v == i32::MIN {
        i32::MAX
    } else {
        (-v) as i32
    }
}

fn neg(v: i32) -> (r: i32)
    ensures
        r == neg_score(v),
{
    if v == i32::MIN {
        i32::MAX
    } else {
        -v
    }
}

/// `a + b` held to the `i32` range.
pub open spec fn add_score(a: i32, b: i32) -> i32 {
    if a + b > i32::MAX {
        i32::MAX
    } else if a + b < i32::MIN {
        i32::MIN
    } else {
        (a + b) as i32
    }
}

fn add_sat(a: i32, b: i32) -> (r: i32)
    ensures
        r == add_score(a, b),
{
    let s: i64 = a as i64 + b as i64;
    if s > i32::MAX as i64 {
        i32::MAX
    } else if s < i32::MIN as i64 {
        i32::MIN
    } else {
        s as i32
    }
}

/// Mate scores are those within `MAX_PLY` of `MATE`.
pub open spec fn is_mate_score_hi(s: int) -> bool {
    s >= MATE - MAX_PLY
}

pub open spec fn is_mate_score_lo(s: int) -> bool {
    s <= -MATE + MAX_PLY
}

/// The score stored in the table for a node at `ply`: mate scores are counted from
/// the node rather than from the root.
pub open spec fn tt_stored(score: i32, ply: int) -> i32 {
    if is_mate_score_hi(score as int) {
        add_score(score, ply as i32)
    } else if is_mate_score_lo(score as int) {
        add_score(score, (-ply) as i32)
    } else {
        score
    }
}

/// The score read back from the table at `ply`.
pub open spec fn tt_loaded(score: i32, ply: int) -> i32 {
    if is_mate_score_hi(score as int) {
        (score - ply) as i32
    } else if is_mate_score_lo(score as int) {
        (score + ply) as i32
    } else {
        score
    }
}

fn score_to_tt(score: i32, ply: usize) -> (r: i32)
    requires
        ply <= 100_000,
    ensures
        r == tt_stored(score, ply as int),
{
    if score >= MATE - MAX_PLY as i32 {
        add_sat(score, ply as i32)
    } else if score <= -MATE + MAX_PLY as i32 {
        add_sat(score, -(ply as i32))
    } else {
        score
    }
}

fn score_from_tt(score: i32, ply: usize) -> (r: i32)
    requires
        ply <= 100_000,
    ensures
        r == tt_loaded(score, ply as int),
{
    if score >= MATE - MAX_PLY as i32 {
        score - ply as i32
    } else if score <= -MATE + MAX_PLY as i32 {
        score + ply as i32
    } else {
        score
    }
}

/// A score stored at some ply and read back at the same ply is the score itself,
/// unless storing it left the `i32` range.
pub proof fn lemma_tt_round_trip(score: i32, ply: int)
    requires
        0 <= ply <= 100_000,
        i32::MIN + ply <= score <= i32::MAX - ply,
    ensures
        tt_loaded(tt_stored(score, ply), ply) == score,
{
}

/// Mate scores are stored relative to the storing node: a node at `ply` (within the
/// killer table's plies) mated now, scored `ply - MATE` from the root, is stored as
/// `-MATE`, a mate given now (`MATE - ply`) as `MATE`; and every score from `-MATE - 1`
/// to `MATE + 1` reads back as stored.
pub proof fn lemma_mate_scores_stored_from_node(score: i32, ply: int)
    requires
        0 <= ply <= MAX_PLY,
        -MATE - 1 <= score <= MATE + 1,
    ensures
        tt_stored((ply - MATE) as i32, ply) == -MATE,
        tt_stored((MATE - ply) as i32, ply) == MATE,
        tt_loaded(tt_stored(score, ply), ply) == score,
{
}

// ---------------------------------------------------------------------------
// Plan signatures and ordering scores
// ---------------------------------------------------------------------------

/// The number of a move kind, in declaration order.
pub open spec fn move_kind_code(k: MoveKind) -> u64 {
    match k {
        MoveKind::Normal => 0,
        MoveKind::DoublePush => 1,
        MoveKind::EnPassant => 2,
        MoveKind::CastleKing => 3,
        MoveKind::CastleQueen => 4,
    }
}

fn move_kind_num(k: MoveKind) -> (r: u64)
    ensures
        r == move_kind_code(k),
{
    match k {
        MoveKind::Normal => 0,
        MoveKind::DoublePush => 1,
        MoveKind::EnPassant => 2,
        MoveKind::CastleKing => 3,
        MoveKind::CastleQueen => 4,
    }
}

fn kind_num(k: PieceKind) -> (r: u64)
    ensures
        r == kind_code(k),
{
    match k {
        PieceKind::Pawn => 0,
        PieceKind::Knight => 1,
        PieceKind::Bishop => 2,
        PieceKind::Rook => 3,
        PieceKind::Queen => 4,
        PieceKind::King => 5,
        PieceKind::Unicorn => 6,
        PieceKind::Dragon => 7,
        PieceKind::Princess => 8,
        PieceKind::Brawn => 9,
    }
}

/// A 64-bit signature of a move.
pub open spec fn move_signature(m: Move) -> u64 {
    let s0 = 0x9E3779B97F4A7C15u64;
    let s1 = s0 ^ (m.from.l as i64 as u64).wrapping_mul(0xBF58476D1CE4E5B9);
    let s2 = s1 ^ (m.from.t as i64 as u64).wrapping_mul(0x94D049BB133111EB);
    let s3 = s2 ^ (((m.from.x as u64) << 8u64) | (m.from.y as u64));
    let s4 = s3 ^ (m.to.l as i64 as u64).wrapping_mul(0xD6E8FEB86659FD93);
    let s5 = s4 ^ (m.to.t as i64 as u64).wrapping_mul(0xA5CB9243E6E0B9F1);
    let s6 = s5 ^ (((m.to.x as u64) << 24u64) | ((m.to.y as u64) << 16u64));
    let s7 = s6 ^ (move_kind_code(m.kind) << 40u64);
    let s8 = match m.promotion {
        Some(k) => s7 ^ (kind_code(k) << 48u64),
        None => s7,
    };
    let s9 = s8.wrapping_mul(0x9E3779B97F4A7C15);
    s9 ^ (s9 >> 32u64)
}

fn move_sig(m: &Move) -> (r: u64)
    ensures
        r == move_signature(*m),
{
    let mut s: u64 = 0x9E3779B97F4A7C15;
    s = s ^ (m.from.l as i64 as u64).wrapping_mul(0xBF58476D1CE4E5B9);
    s = s ^ (m.from.t as i64 as u64).wrapping_mul(0x94D049BB133111EB);
    s = s ^ (((m.from.x as u64) << 8u64) | (m.from.y as u64));
    s = s ^ (m.to.l as i64 as u64).wrapping_mul(0xD6E8FEB86659FD93);
    s = s ^ (m.to.t as i64 as u64).wrapping_mul(0xA5CB9243E6E0B9F1);
    s = s ^ (((m.to.x as u64) << 24u64) | ((m.to.y as u64) << 16u64));
    s = s ^ (move_kind_num(m.kind) << 40u64);
    if let Some(k) = m.promotion {
        s = s ^ (kind_num(k) << 48u64);
    }
    s = s.wrapping_mul(0x9E3779B97F4A7C15);
    s ^ (s >> 32u64)
}

/// Signature of the moves `plan[..n]`, starting from the plan's length.
pub open spec fn plan_signature_upto(plan: Seq<Move>, n: int) -> u64
    decreases n,
{
    if n <= 0 {
        plan.len() as u64
    } else {
        plan_signature_upto(plan, n - 1).wrapping_mul(0x9E3779B97F4A7C15) ^ move_signature(plan[n - 1])
    }
}

/// A 64-bit signature of a turn plan.
pub open spec fn plan_signature(plan: Seq<Move>) -> u64 {
    plan_signature_upto(plan, plan.len() as int)
}

fn plan_sig(plan: &TurnPlan) -> (r: u64)
    ensures
        r == plan_signature(plan@),
{
    let mut s: u64 = plan.len() as u64;
    let mut i: usize = 0;
    while i < plan.len()
        invariant
            i <= plan@.len(),
            s == plan_signature_upto(plan@, i as int),
        decreases plan@.len() - i,
    {
        s = s.wrapping_mul(0x9E3779B97F4A7C15) ^ move_sig(&plan[i]);
        i = i + 1;
    }
    s
}

/// No move of the plan captures or promotes.
pub open spec fn quiet_plan(plan: Seq<Move>) -> bool {
    forall|i: int| 0 <= i < plan.len() ==> !(#[trigger] plan[i]).capture && plan[i].promotion is None
}

fn is_quiet(plan: &TurnPlan) -> (r: bool)
    ensures
        r == quiet_plan(plan@),
{
    let mut i: usize = 0;
    while i < plan.len()
        invariant
            i <= plan@.len(),
            forall|j: int| 0 <= j < i ==> !(#[trigger] plan@[j]).capture && plan@[j].promotion is None,
        decreases plan@.len() - i,
    {
        if plan[i].capture || plan[i].promotion.is_some() {
            return false;
        }
        i = i + 1;
    }
    true
}

/// Value of the piece on the square, 0 when there is none.
pub open spec fn worth_at(mv: MultiverseView, l: int, t: int, x: int, y: int) -> int {
    match piece_at(mv, l, t, x, y) {
        Some(p) => piece_worth(p.kind),
        None => 0,
    }
}

/// What one move of a plan adds to the capture gain: for a capture the victim's
/// value minus a tenth of the attacker's, for a promotion the promoted value minus
/// a pawn. Squares are read on the position before the plan.
pub open spec fn move_gain(mv: MultiverseView, m: Move) -> int {
    (if m.capture {
        worth_at(mv, m.to.l as int, m.to.t as int, m.to.x as int, m.to.y as int) - worth_at(
            mv,
            m.from.l as int,
            m.from.t as int,
            m.from.x as int,
            m.from.y as int,
        ) / 10
    } else {
        0
    }) + match m.promotion {
        Some(k) => piece_worth(k) - 100,
        None => 0,
    }
}

/// Gain of the moves `plan[..n]`.
pub open spec fn gain_upto(mv: MultiverseView, plan: Seq<Move>, n: int) -> int
    decreases n,
{
    if n <= 0 {
        0
    } else {
        gain_upto(mv, plan, n - 1) + move_gain(mv, plan[n - 1])
    }
}

fn worth_on(mv: &Multiverse, l: i32, t: i32, x: i8, y: i8) -> (r: i32)
    ensures
        r == worth_at(mv@, l as int, t as int, x as int, y as int),
        0 <= r <= 20_000,
{
    match mv.board(crate::types::BoardId { l, t }) {
        Some(b) => match b.get(x, y) {
            Some(p) => piece_value(p.kind),
            None => 0,
        },
        None => 0,
    }
}

/// Most valuable victim / least valuable attacker gain of a plan.
fn mvv_lva(mv: &Multiverse, plan: &TurnPlan) -> (r: i32)
    requires
        plan@.len() <= MAX_TURN_LENGTH,
    ensures
        r == gain_upto(mv@, plan@, plan@.len() as int),
        -20_000 <= r <= 250_000,
{
    let mut gain: i32 = 0;
    let mut i: usize = 0;
    while i < plan.len()
        invariant
            i <= plan@.len(),
            plan@.len() <= MAX_TURN_LENGTH,
            gain == gain_upto(mv@, plan@, i as int),
            -3_000 * i <= gain <= 40_000 * i,
        decreases plan@.len() - i,
    {
        let m = plan[i];
        let mut g: i32 = 0;
        if m.capture {
            g = worth_on(mv, m.to.l, m.to.t, m.to.x, m.to.y) - worth_on(mv, m.from.l, m.from.t, m.from.x, m.from.y) / 10;
        }
        if let Some(k) = m.promotion {
            g = g + piece_value(k) - 100;
        }
        gain = gain + g;
        i = i + 1;
    }
    gain
}

// ---------------------------------------------------------------------------
// Search state
// ---------------------------------------------------------------------------

#[derive(Copy, Clone)]
enum TtFlag {
    Exact,
    LowerBound,
    UpperBound,
}

#[derive(Copy, Clone)]
struct TtEntry {
    depth: u32,
    score: i32,
    flag: TtFlag,
    best_idx: Option<usize>,
}

struct Ctx {
    deadline: Option<Instant>,
    nodes: u64,
    tt_hits: u64,
    tt: HashMap<u64, TtEntry>,
    aborted: bool,
    /// Killer plan signatures per ply from the root (two slots).
    killers: Vec<[u64; 2]>,
    /// History heuristic: plan signature -> score.
    history: HashMap<u64, i32>,
}

/// The killer table covers every ply below `MAX_PLY`; history scores lie in
/// `0 ..= 700_000`.
spec fn ctx_ok(ctx: &Ctx) -> bool {
    &&& ctx.killers@.len() == MAX_PLY
    &&& forall|k: u64| #[trigger] ctx.history@.contains_key(k) ==> 0 <= ctx.history@[k] <= 700_000
}

/// The search runs without a deadline and has not been stopped.
spec fn unbounded(ctx: &Ctx) -> bool {
    ctx.deadline is None && !ctx.aborted
}

/// `b` keeps the deadline of `a`, and a search without a deadline stays unstopped.
spec fn keeps_clock(a: &Ctx, b: &Ctx) -> bool {
    &&& b.deadline == a.deadline
    &&& unbounded(a) ==> !b.aborted
}

impl Ctx {
    /// Polls the clock every 256 nodes; once the deadline has passed the search stays
    /// aborted.
    fn check_deadline(&mut self) -> (r: bool)
        ensures
            r == final(self).aborted,
            old(self).aborted ==> r,
            final(self).killers == old(self).killers,
            final(self).nodes == old(self).nodes,
            final(self).history == old(self).history,
            final(self).tt == old(self).tt,
            final(self).tt_hits == old(self).tt_hits,
            keeps_clock(old(self), final(self)),
    {
        if self.aborted {
            return true;
        }
        if self.nodes & 255 == 0 && past(&self.deadline) {
            self.aborted = true;
        }
        self.aborted
    }
}

fn bump(v: u64) -> (r: u64)
    ensures
        r == if v < u64::MAX {
            (v + 1) as u64
        } else {
            v
        },
{
    if v < u64::MAX {
        v + 1
    } else {
        v
    }
}

/// The ordering score of `plan` at `ply`: 10,000,000 for the principal-variation
/// plan, 1,000,000 plus the capture gain for a winning capture, 900,000 and 800,000
/// for the two killers of the ply, else the history score (0 when none).
pub open spec fn order_score(
    mv: MultiverseView,
    plan: Seq<Move>,
    ply: int,
    killers: Seq<[u64; 2]>,
    history: Map<u64, i32>,
    pv_sig: Option<u64>,
) -> int {
    let sig = plan_signature(plan);
    let gain = gain_upto(mv, plan, plan.len() as int);
    if pv_sig == Some(sig) {
        10_000_000
    } else if gain > 0 {
        1_000_000 + gain
    } else if ply < MAX_PLY && killers[ply][0] == sig {
        900_000
    } else if ply < MAX_PLY && killers[ply][1] == sig {
        800_000
    } else if history.contains_key(sig) {
        history[sig] as int
    } else {
        0
    }
}

/// Ordering score of a plan: the principal-variation plan first, then captures by
/// gain, then the two killers of this ply, then the history score.
fn score_plan(mv: &Multiverse, plan: &TurnPlan, ply: usize, ctx: &Ctx, pv_sig: Option<u64>) -> (r: i32)
    requires
        ctx_ok(ctx),
        plan@.len() <= MAX_TURN_LENGTH,
    ensures
        r == order_score(mv@, plan@, ply as int, ctx.killers@, ctx.history@, pv_sig),
        -1_000_000_000 <= r <= 10_000_000,
{
    let sig = plan_sig(plan);
    if let Some(pv) = pv_sig {
        if pv == sig {
            return 10_000_000;
        }
    }
    let cap = mvv_lva(mv, plan);
    if cap > 0 {
        return 1_000_000 + cap;
    }
    if ply < MAX_PLY {
        if ctx.killers[ply][0] == sig {
            return 900_000;
        }
        if ctx.killers[ply][1] == sig {
            return 800_000;
        }
    }
    match ctx.history.get(&sig) {
        Some(h) => *h,
        None => 0,
    }
}

/// `a` comes before `b` in the order of `keys`, ties broken by position.
pub open spec fn key_before(keys: Seq<i64>, a: int, b: int) -> bool {
    keys[a] < keys[b] || (keys[a] == keys[b] && a < b)
}

/// `ord` lists the positions of `keys` once each, in increasing key order, equal keys
/// in their original order (a stable sort).
pub open spec fn stable_order_of(keys: Seq<i64>, ord: Seq<usize>) -> bool {
    &&& ord.len() == keys.len()
    &&& forall|k: int| 0 <= k < ord.len() ==> #[trigger] ord[k] < keys.len()
    &&& forall|j: usize| j < keys.len() ==> ord.contains(j)
    &&& forall|a: int, b: int| 0 <= a < b < ord.len() ==> key_before(keys, ord[a] as int, ord[b] as int)
}

/// The stable ascending order of `keys`, by insertion sort.
fn stable_order(keys: &Vec<i64>) -> (ord: Vec<usize>)
    ensures
        stable_order_of(keys@, ord@),
{
    let n = keys.len();
    let mut ord: Vec<usize> = Vec::new();
    let mut i: usize = 0;
    while i < n
        invariant
            i <= n,
            n == keys@.len(),
            ord@.len() == i,
            forall|k: int| 0 <= k < i ==> ord@[k] == k,
        decreases n - i,
    {
        ord.push(i);
        i = i + 1;
    }
    proof {
        assert forall|j: usize| j < keys@.len() implies ord@.contains(j) by {
            assert(ord@[j as int] == j);
        }
    }
    let mut i: usize = 1;
    while i < n
        invariant
            1 <= i <= n || n == 0,
            n == keys@.len(),
            ord@.len() == n,
            forall|k: int| 0 <= k < n ==> #[trigger] ord@[k] < n,
            forall|j: usize| j < n ==> ord@.contains(j),
            forall|a: int, b: int| 0 <= a < b < i && b < n ==> key_before(keys@, ord@[a] as int, ord@[b] as int),
            forall|a: int, b: int| 0 <= a < b < n ==> ord@[a] != ord@[b],
        decreases n - i,
    {
        let mut p: usize = i;
        while p > 0 && (keys[ord[p]] < keys[ord[p - 1]] || (keys[ord[p]] == keys[ord[p - 1]] && ord[p] < ord[p - 1]))
            invariant
                0 <= p <= i < n,
                n == keys@.len(),
                ord@.len() == n,
                forall|k: int| 0 <= k < n ==> #[trigger] ord@[k] < n,
                forall|j: usize| j < n ==> ord@.contains(j),
                forall|a: int, b: int| 0 <= a < b < n ==> ord@[a] != ord@[b],
                forall|a: int, b: int|
                    0 <= a < b <= i && a != p && b != p ==> key_before(keys@, ord@[a] as int, ord@[b] as int),
                forall|b: int| p < b <= i ==> key_before(keys@, ord@[p as int] as int, ord@[b] as int),
            decreases p,
        {
            let ghost before = ord@;
            let x = ord[p];
            let y = ord[p - 1];
            ord.set(p, y);
            ord.set(p - 1, x);
            proof {
                assert forall|j: usize| j < n implies ord@.contains(j) by {
                    assert(before.contains(j));
                    let k = choose|k: int| 0 <= k < n && before[k] == j;
                    if k == p {
                        assert(ord@[p - 1] == j);
                    } else if k == p - 1 {
                        assert(ord@[p as int] == j);
                    } else {
                        assert(ord@[k] == j);
                    }
                }
            }
            p = p - 1;
        }
        proof {
            assert forall|a: int, b: int| 0 <= a < b < i + 1 && b < n implies key_before(keys@, ord@[a] as int, ord@[b] as int) by {
                if a != p && b != p {
                } else if a == p {
                } else {
                    // b == p, a < p: ord[a] before ord[p - 1] before ord[p].
                    if a < p - 1 {
                        assert(key_before(keys@, ord@[a] as int, ord@[p - 1] as int));
                    }
                    assert(ord@[p - 1] != ord@[p as int]);
                }
            }
        }
        i = i + 1;
    }
    ord
}

/// The plans in decreasing order of their ordering score (stable).
fn order_plans_scored(
    mv: &Multiverse,
    plans: &Vec<TurnPlan>,
    ply: usize,
    ctx: &Ctx,
    pv_sig: Option<u64>,
) -> (r: Vec<TurnPlan>)
    requires
        ctx_ok(ctx),
        forall|i: int| 0 <= i < plans@.len() ==> (#[trigger] plans@[i])@.len() <= MAX_TURN_LENGTH,
    ensures
        r@.len() == plans@.len(),
        forall|k: int| 0 <= k < r@.len() ==> has_plan(plans@, (#[trigger] r@[k])@),
        forall|p: Seq<Move>| has_plan(plans@, p) ==> has_plan(r@, p),
        distinct_plans_from(plans@, 0) ==> distinct_plans_from(r@, 0),
{
    let mut keys: Vec<i64> = Vec::new();
    let mut i: usize = 0;
    while i < plans.len()
        invariant
            i <= plans@.len(),
            keys@.len() == i,
            ctx_ok(ctx),
            forall|k: int| 0 <= k < plans@.len() ==> (#[trigger] plans@[k])@.len() <= MAX_TURN_LENGTH,
        decreases plans@.len() - i,
    {
        let s = score_plan(mv, &plans[i], ply, ctx, pv_sig);
        keys.push(-(s as i64));
        i = i + 1;
    }
    let ord = stable_order(&keys);
    let mut out: Vec<TurnPlan> = Vec::new();
    let mut k: usize = 0;
    while k < ord.len()
        invariant
            k <= ord@.len(),
            ord@.len() == plans@.len(),
            forall|q: int| 0 <= q < ord@.len() ==> #[trigger] ord@[q] < plans@.len(),
            out@.len() == k,
            forall|q: int| 0 <= q < k ==> (#[trigger] out@[q])@ == plans@[ord@[q] as int]@,
        decreases ord@.len() - k,
    {
        out.push(copy_plan(&plans[ord[k]]));
        k = k + 1;
    }
    proof {
        assert forall|q: int| 0 <= q < out@.len() implies has_plan(plans@, (#[trigger] out@[q])@) by {
            assert(out@[q]@ == plans@[ord@[q] as int]@);
        }
        assert forall|a: int, b: int| 0 <= a < b < ord@.len() implies ord@[a] != ord@[b] by {
            assert(key_before(keys@, ord@[a] as int, ord@[b] as int));
        }
        assert forall|p: Seq<Move>| has_plan(plans@, p) implies has_plan(out@, p) by {
            let j = choose|j: int| 0 <= j < plans@.len() && #[trigger] plans@[j]@ == p;
            let ju: usize = j as usize;
            assert(ord@.contains(ju));
            let q = choose|q: int| 0 <= q < ord@.len() && ord@[q] == ju;
            assert(out@[q]@ == plans@[ord@[q] as int]@);
        }
        if distinct_plans_from(plans@, 0) {
            assert forall|a: int, b: int| 0 <= a < b < out@.len() implies (#[trigger] out@[a])@ != (#[trigger] out@[b])@ by {
                assert(out@[a]@ == plans@[ord@[a] as int]@);
                assert(out@[b]@ == plans@[ord@[b] as int]@);
                if ord@[a] < ord@[b] {
                    assert(plans@[ord@[a] as int]@ != plans@[ord@[b] as int]@);
                } else {
                    assert(plans@[ord@[b] as int]@ != plans@[ord@[a] as int]@);
                }
            }
        }
    }
    out
}

/// `after` is `before` with `sig` recorded as the first killer of `ply`: the former
/// first killer moves to the second slot, unless `sig` is already first; plies
/// beyond the table are not recorded.
pub open spec fn killers_recorded(before: Seq<[u64; 2]>, after: Seq<[u64; 2]>, ply: int, sig: u64) -> bool {
    if ply < MAX_PLY && before[ply][0] != sig {
        &&& after.len() == before.len()
        &&& after[ply][0] == sig
        &&& after[ply][1] == before[ply][0]
        &&& forall|j: int| 0 <= j < before.len() && j != ply ==> after[j] == before[j]
    } else {
        after == before
    }
}

/// The search state apart from the killer table and the history scores.
spec fn same_but_tables(a: &Ctx, b: &Ctx) -> bool {
    &&& b.deadline == a.deadline
    &&& b.nodes == a.nodes
    &&& b.tt_hits == a.tt_hits
    &&& b.tt@ == a.tt@
    &&& b.aborted == a.aborted
}

fn record_killer(ctx: &mut Ctx, ply: usize, sig: u64)
    requires
        ctx_ok(old(ctx)),
    ensures
        ctx_ok(final(ctx)),
        keeps_clock(old(ctx), final(ctx)),
        killers_recorded(old(ctx).killers@, final(ctx).killers@, ply as int, sig),
        final(ctx).history@ == old(ctx).history@,
        same_but_tables(old(ctx), final(ctx)),
{
    if ply >= MAX_PLY {
        return;
    }
    let slots = ctx.killers[ply];
    if slots[0] != sig {
        ctx.killers.set(ply, [sig, slots[0]]);
    }
}

/// The history score of `sig` raised by `depth` squared, saturating at 700,000.
pub open spec fn history_bumped(history: Map<u64, i32>, sig: u64, depth: int) -> i32 {
    let e: i32 = if history.contains_key(sig) {
        history[sig]
    } else {
        0
    };
    let added = add_score(e, (depth * depth) as i32);
    if added < 700_000 {
        added
    } else {
        700_000
    }
}

fn bump_history(ctx: &mut Ctx, sig: u64, depth: u32)
    requires
        ctx_ok(old(ctx)),
        depth <= 46_340,
    ensures
        ctx_ok(final(ctx)),
        keeps_clock(old(ctx), final(ctx)),
        final(ctx).history@ == old(ctx).history@.insert(sig, history_bumped(old(ctx).history@, sig, depth as int)),
        final(ctx).killers@ == old(ctx).killers@,
        same_but_tables(old(ctx), final(ctx)),
{
    proof {
        assert(0 <= depth * depth <= 2_147_395_600) by (nonlinear_arith)
            requires
                depth <= 46_340,
        ;
    }
    let bonus: i32 = (depth as i32) * (depth as i32);
    let e: i32 = match ctx.history.get(&sig) {
        Some(h) => *h,
        None => 0,
    };
    let added = add_sat(e, bonus);
    let v = if added < 700_000 {
        added
    } else {
        700_000
    };
    ctx.history.insert(sig, v);
}

// ---------------------------------------------------------------------------
// The search
// ---------------------------------------------------------------------------

/// The position's score for the side to move: the evaluation, negated for Black,
/// held to the `i32` range.
pub open spec fn side_score(mv: MultiverseView) -> int {
    let e = crate::eval::evaluation(mv);
    let v = if mv.global_to_move == Color::White {
        e
    } else {
        -e
    };
    if v > i32::MAX {
        i32::MAX as int
    } else if v < i32::MIN {
        i32::MIN as int
    } else {
        v
    }
}

fn side_eval(mv: &Multiverse) -> (r: i32)
    requires
        mv_wf(mv@),
    ensures
        r == side_score(mv@),
{
    let e = evaluate_wide(mv);
    let v: i64 = match mv.global_to_move {
        Color::White => e,
        Color::Black => if e == i64::MIN {
            i64::MAX
        } else {
            -e
        },
    };
    if v > i32::MAX as i64 {
        i32::MAX
    } else if v < i32::MIN as i64 {
        i32::MIN
    } else {
        v as i32
    }
}

/// The larger of two scores.
pub open spec fn max_score(a: int, b: int) -> int {
    if a >= b {
        a
    } else {
        b
    }
}

/// The quiescence result when no capture is searched: `beta` once the static score
/// reaches it, else the better of `alpha` and the static score.
pub open spec fn qs_static(alpha: int, beta: int, stand: int) -> int {
    if stand >= beta {
        beta
    } else {
        max_score(alpha, stand)
    }
}

/// A fail-hard quiescence result: `beta` when the static score reaches it; otherwise
/// `beta` or a score from the better of `alpha` and the static score up to `beta`.
pub open spec fn qs_window(r: int, alpha: int, beta: int, stand: int) -> bool {
    if stand >= beta {
        r == beta
    } else {
        let lo = max_score(alpha, stand);
        r == beta || (lo <= r && r <= max_score(lo, beta))
    }
}

/// Whether the side to move has a capture or promotion from board `b`.
pub open spec fn has_capture_from(mv: MultiverseView, b: BoardId) -> bool {
    exists|m: Move|
        #[trigger] from_board_move(mv, b.l as int, b.t as int, mv.global_to_move, m) && (m.capture
            || m.promotion is Some)
}

/// A capture or promotion of the side to move from its one required board.
pub open spec fn qs_capture(mv: MultiverseView, m: Move) -> bool {
    let rb = required_boards(mv, mv.global_to_move);
    &&& rb.len() == 1
    &&& from_board_move(mv, rb[0].l as int, rb[0].t as int, mv.global_to_move, m)
    &&& (m.capture || m.promotion is Some)
}

/// The MVV-LVA value of a capture: ten times the victim's worth less the attacker's.
pub open spec fn mvv_lva_value(mv: MultiverseView, m: Move) -> int {
    worth_at(mv, m.to.l as int, m.to.t as int, m.to.x as int, m.to.y as int) * 10 - worth_at(
        mv,
        m.from.l as int,
        m.from.t as int,
        m.from.x as int,
        m.from.y as int,
    )
}

/// The captures a quiescence node examines, in order: the first `QS_MOVE_LIMIT` of
/// its captures by MVV-LVA value, most valuable first, each once (equal values in
/// the generator's order).
pub open spec fn qs_examined(mv: MultiverseView, seq: Seq<Move>) -> bool {
    &&& seq.no_duplicates()
    &&& seq.len() <= QS_MOVE_LIMIT
    &&& forall|i: int| 0 <= i < seq.len() ==> qs_capture(mv, #[trigger] seq[i])
    &&& forall|i: int, j: int|
        0 <= i < j < seq.len() ==> mvv_lva_value(mv, #[trigger] seq[i]) >= mvv_lva_value(mv, #[trigger] seq[j])
    &&& forall|m: Move| #[trigger] qs_capture(mv, m) && !seq.contains(m) ==> {
        &&& seq.len() == QS_MOVE_LIMIT
        &&& forall|i: int| 0 <= i < seq.len() ==> mvv_lva_value(mv, m) <= mvv_lva_value(mv, #[trigger] seq[i])
    }
}

/// The position after the one-move turn `m`.
pub open spec fn qs_child(mv: MultiverseView, m: Move) -> MultiverseView {
    turn_result(mv, seq![m])
}

/// A capture that can be played and does not leave the mover in check.
pub open spec fn qs_searchable(mv: MultiverseView, m: Move) -> bool {
    applicable(mv, m) && !in_check_spec(qs_child(mv, m), mv.global_to_move)
}

/// The larger of an `i32` score and an integer score in its range.
pub open spec fn raise(alpha: i32, s: int) -> i32 {
    if s > alpha {
        s as i32
    } else {
        alpha
    }
}

/// `r` is a fail-hard quiescence result of `mv` for the window `(alpha, beta)`: the
/// static score at the depth limit; `beta` when the static score reaches it; else,
/// from the better of `alpha` and the static score, the examined captures are
/// searched in order (`qs_fold`).
pub open spec fn qs_result(mv: MultiverseView, alpha: i32, beta: i32, qply: int, r: i32) -> bool
    decreases QS_MAX_PLY - qply, 1int, 0int,
{
    let stand = side_score(mv);
    let rb = required_boards(mv, mv.global_to_move);
    if qply >= QS_MAX_PLY {
        r == stand
    } else if stand >= beta {
        r == beta
    } else if rb.len() != 1 || !has_capture_from(mv, rb[0]) {
        r == raise(alpha, stand)
    } else {
        exists|seq: Seq<Move>| #[trigger] qs_examined(mv, seq) && qs_fold(mv, seq, 0, raise(alpha, stand), beta, qply, r)
    }
}

/// Searching the examined captures `seq[i..]` with the window `(alpha, beta)`: a
/// capture that cannot be searched is passed over; otherwise its negated child result
/// `s` ends the search with `beta` when it reaches `beta`, or raises `alpha`; after
/// the last capture the result is `alpha`.
pub open spec fn qs_fold(mv: MultiverseView, seq: Seq<Move>, i: int, alpha: i32, beta: i32, qply: int, r: i32) -> bool
    decreases QS_MAX_PLY - qply, 0int, seq.len() - i,
{
    if i < 0 || i >= seq.len() || qply >= QS_MAX_PLY {
        r == alpha
    } else if !qs_searchable(mv, seq[i]) {
        qs_fold(mv, seq, i + 1, alpha, beta, qply, r)
    } else {
        exists|v: i32|
            qs_result(qs_child(mv, seq[i]), neg_score(beta), neg_score(alpha), qply + 1, v) && if #[trigger] neg_score(v) >= beta {
                r == beta
            } else {
                qs_fold(mv, seq, i + 1, raise(alpha, neg_score(v) as int), beta, qply, r)
            }
    }
}

/// Quiescence search: single-board captures, each as a one-move turn, while exactly
/// one board is required; otherwise the static score stands.
fn quiescence(mv: &Multiverse, tb: &Tables, alpha_in: i32, beta: i32, ctx: &mut Ctx, qply: u32) -> (r: i32)
    requires
        mv_wf(mv@),
        tables_ok(tb),
        ctx_ok(old(ctx)),
        qply <= QS_MAX_PLY,
    ensures
        ctx_ok(final(ctx)),
        keeps_clock(old(ctx), final(ctx)),
        qply == QS_MAX_PLY ==> r == side_score(mv@),
        r == side_score(mv@) || qs_window(r as int, alpha_in as int, beta as int, side_score(mv@)),
        !final(ctx).aborted && qply < QS_MAX_PLY ==> qs_window(
            r as int,
            alpha_in as int,
            beta as int,
            side_score(mv@),
        ),
        !final(ctx).aborted && qply < QS_MAX_PLY && (required_boards(mv@, mv@.global_to_move).len() != 1
            || !has_capture_from(mv@, required_boards(mv@, mv@.global_to_move)[0])) ==> r == qs_static(
            alpha_in as int,
            beta as int,
            side_score(mv@),
        ),
        !final(ctx).aborted ==> qs_result(mv@, alpha_in, beta, qply as int, r),
        final(ctx).tt@ == old(ctx).tt@,
    decreases QS_MAX_PLY - qply,
{
    let mut alpha = alpha_in;
    ctx.nodes = bump(ctx.nodes);
    if ctx.check_deadline() {
        return side_eval(mv);
    }
    let stand = side_eval(mv);
    if qply >= QS_MAX_PLY {
        return stand;
    }
    if stand >= beta {
        return beta;
    }
    if stand > alpha {
        alpha = stand;
    }
    let side = mv.global_to_move;
    let req = required_source_boards(mv, side);
    if req.len() != 1 {
        return alpha;
    }
    let bid = req[0];
    let lim = mv.active_limit();
    let caps = capture_moves_with(mv, tb, lim, bid, side);
    if caps.len() == 0 {
        proof {
            if has_capture_from(mv@, required_boards(mv@, mv@.global_to_move)[0]) {
                let m = choose|m: Move|
                    #[trigger] from_board_move(mv@, bid.l as int, bid.t as int, side, m) && (m.capture
                        || m.promotion is Some);
                assert(caps@.contains(m));
            }
        }
        return alpha;
    }
    proof {
        assert(caps@.contains(caps@[0]));
        assert(has_capture_from(mv@, required_boards(mv@, mv@.global_to_move)[0]));
    }
    // MVV-LVA ordering: victim value times ten minus attacker value, largest first.
    let mut keys: Vec<i64> = Vec::new();
    let mut i: usize = 0;
    while i < caps.len()
        invariant
            i <= caps@.len(),
            keys@.len() == i,
            forall|q: int| 0 <= q < i ==> keys@[q] == -mvv_lva_value(mv@, #[trigger] caps@[q]),
        decreases caps@.len() - i,
    {
        let m = caps[i];
        let v = worth_on(mv, m.to.l, m.to.t, m.to.x, m.to.y);
        let a = worth_on(mv, m.from.l, m.from.t, m.from.x, m.from.y);
        keys.push(-((v as i64) * 10 - a as i64));
        i = i + 1;
    }
    let ord = stable_order(&keys);
    let limit = if ord.len() < QS_MOVE_LIMIT {
        ord.len()
    } else {
        QS_MOVE_LIMIT
    };
    let ghost lo: i32 = alpha;
    let ghost exam: Seq<Move> = Seq::new(limit as nat, |q: int| caps@[ord@[q] as int]);
    proof {
        lemma_examined(mv@, caps@, keys@, ord@, limit as int, exam);
    }
    let mut k: usize = 0;
    while k < limit
        invariant
            k <= limit <= ord@.len(),
            ord@.len() == caps@.len(),
            forall|q: int| 0 <= q < ord@.len() ==> #[trigger] ord@[q] < caps@.len(),
            mv_wf(mv@),
            tables_ok(tb),
            ctx_ok(ctx),
            keeps_clock(old(ctx), ctx),
            qply < QS_MAX_PLY,
            side == mv.global_to_move,
            stand == side_score(mv@),
            stand < beta,
            max_score(alpha_in as int, stand as int) <= alpha,
            alpha <= max_score(max_score(alpha_in as int, stand as int), beta as int),
            required_boards(mv@, mv@.global_to_move).len() == 1,
            has_capture_from(mv@, required_boards(mv@, mv@.global_to_move)[0]),
            exam.len() == limit,
            ctx.tt@ == old(ctx).tt@,
            forall|q: int| 0 <= q < limit ==> #[trigger] exam[q] == caps@[ord@[q] as int],
            qs_examined(mv@, exam),
            lo == raise(alpha_in, stand as int),
            forall|x: i32| #[trigger] qs_fold(mv@, exam, k as int, alpha, beta, qply as int, x) ==> qs_fold(
                mv@,
                exam,
                0,
                lo,
                beta,
                qply as int,
                x,
            ),
        decreases limit - k,
    {
        let m = caps[ord[k]];
        let ghost kk = k as int;
        let ghost a0 = alpha;
        proof {
            assert(exam[kk] == m);
        }
        k = k + 1;
        if !is_applicable(mv, m) {
            proof {
                assert forall|x: i32| #[trigger] qs_fold(mv@, exam, k as int, alpha, beta, qply as int, x) implies qs_fold(
                    mv@,
                    exam,
                    0,
                    lo,
                    beta,
                    qply as int,
                    x,
                ) by {
                    assert(qs_fold(mv@, exam, kk, a0, beta, qply as int, x));
                }
            }
            continue;
        }
        let plan: TurnPlan = vec![m];
        proof {
            assert(plan@.len() == 1 && plan@[0] == m);
            assert(plan@.drop_first() =~= Seq::<Move>::empty());
            assert(plan_applicable(step(mv@, m), Seq::<Move>::empty()));
            assert(plan_applicable(mv@, plan@));
        }
        let child = apply_turn(mv, &plan);
        proof {
            assert(plan@ =~= seq![m]);
            assert(child@ == qs_child(mv@, m));
        }
        if in_check_with(&child, tb, side) {
            proof {
                assert forall|x: i32| #[trigger] qs_fold(mv@, exam, k as int, alpha, beta, qply as int, x) implies qs_fold(
                    mv@,
                    exam,
                    0,
                    lo,
                    beta,
                    qply as int,
                    x,
                ) by {
                    assert(qs_fold(mv@, exam, kk, a0, beta, qply as int, x));
                }
            }
            continue;
        }
        let v = quiescence(&child, tb, neg(beta), neg(alpha), ctx, qply + 1);
        let score = neg(v);
        if ctx.aborted {
            return alpha;
        }
        proof {
            assert(qs_result(qs_child(mv@, m), neg_score(beta), neg_score(a0), qply + 1, v));
        }
        proof {
            assert(qs_searchable(mv@, exam[kk]));
        }
        if score >= beta {
            proof {
                assert(qs_fold(mv@, exam, kk, a0, beta, qply as int, beta));
            }
            return beta;
        }
        if score > alpha {
            alpha = score;
        }
        proof {
            assert(alpha == raise(a0, neg_score(v) as int));
            assert forall|x: i32| #[trigger] qs_fold(mv@, exam, k as int, alpha, beta, qply as int, x) implies qs_fold(
                mv@,
                exam,
                0,
                lo,
                beta,
                qply as int,
                x,
            ) by {
                assert(qs_fold(mv@, exam, kk, a0, beta, qply as int, x));
            }
        }
    }
    proof {
        assert(qs_fold(mv@, exam, k as int, alpha, beta, qply as int, alpha));
    }
    alpha
}

/// The first `limit` positions of the MVV-LVA order of the captures are the examined
/// captures.
proof fn lemma_examined(mv: MultiverseView, caps: Seq<Move>, keys: Seq<i64>, ord: Seq<usize>, limit: int, exam: Seq<Move>)
    requires
        caps.len() <= usize::MAX,
        caps.no_duplicates(),
        forall|m: Move| #[trigger] caps.contains(m) <==> qs_capture(mv, m),
        keys.len() == caps.len(),
        forall|q: int| 0 <= q < caps.len() ==> keys[q] == -mvv_lva_value(mv, #[trigger] caps[q]),
        stable_order_of(keys, ord),
        limit == if ord.len() < QS_MOVE_LIMIT {
            ord.len() as int
        } else {
            QS_MOVE_LIMIT as int
        },
        exam == Seq::new(limit as nat, |q: int| caps[ord[q] as int]),
    ensures
        qs_examined(mv, exam),
{
    assert forall|a: int, b: int| 0 <= a < b < ord.len() implies ord[a] != ord[b] by {
        assert(key_before(keys, ord[a] as int, ord[b] as int));
    }
    assert forall|i: int, j: int| 0 <= i < j < exam.len() implies exam[i] != exam[j] by {
        assert(ord[i] != ord[j]);
        assert(caps[ord[i] as int] != caps[ord[j] as int]);
    }
    assert forall|i: int| 0 <= i < exam.len() implies qs_capture(mv, #[trigger] exam[i]) by {
        assert(caps.contains(caps[ord[i] as int]));
    }
    assert forall|i: int, j: int| 0 <= i < j < exam.len() implies mvv_lva_value(mv, #[trigger] exam[i])
        >= mvv_lva_value(mv, #[trigger] exam[j]) by {
        assert(key_before(keys, ord[i] as int, ord[j] as int));
    }
    assert forall|m: Move| #[trigger] qs_capture(mv, m) && !exam.contains(m) implies {
        &&& exam.len() == QS_MOVE_LIMIT
        &&& forall|i: int| 0 <= i < exam.len() ==> mvv_lva_value(mv, m) <= mvv_lva_value(mv, #[trigger] exam[i])
    } by {
        assert(caps.contains(m));
        let j = choose|j: int| 0 <= j < caps.len() && caps[j] == m;
        let ju: usize = j as usize;
        assert(ord.contains(ju));
        let q = choose|q: int| 0 <= q < ord.len() && ord[q] == ju;
        assert(caps[ord[q] as int] == m);
        if q < limit {
            assert(exam[q] == caps[ord[q] as int]);
            assert(exam.contains(m));
        }
        assert forall|i: int| 0 <= i < exam.len() implies mvv_lva_value(mv, m) <= mvv_lva_value(mv, #[trigger] exam[i]) by {
            assert(exam[i] == caps[ord[i] as int]);
            assert(key_before(keys, ord[i] as int, ord[q] as int));
        }
    }
}

/// The recursion measure of negamax: depth plus the plies left for check extensions.
pub open spec fn nm_measure(depth: int, ply: int) -> int {
    depth + if ply < MAX_PLY {
        MAX_PLY - ply
    } else {
        0
    }
}

/// A position drawn by the fifty-move rule, threefold repetition or insufficient
/// material.
pub open spec fn drawn(mv: MultiverseView) -> bool {
    ||| mv.halfmove_clock >= 100
    ||| (mv.position_history.len() > 0 && count_eq(mv.position_history, mv.position_history.last()) >= 3)
    ||| insufficient(mv)
}

/// The transposition-table entry of `key` when it was searched at least `depth` deep.
spec fn tt_probe(tt: Map<u64, TtEntry>, key: u64, depth: u32) -> Option<TtEntry> {
    if tt.contains_key(key) && tt[key].depth >= depth {
        Some(tt[key])
    } else {
        None
    }
}

/// The lower window bound after a table probe: raised by a lower-bound entry.
spec fn probed_alpha(probe: Option<TtEntry>, alpha: i32, ply: int) -> i32 {
    match probe {
        Some(e) => if e.flag is LowerBound && tt_loaded(e.score, ply) > alpha {
            tt_loaded(e.score, ply)
        } else {
            alpha
        },
        None => alpha,
    }
}

/// The upper window bound after a table probe: lowered by an upper-bound entry.
spec fn probed_beta(probe: Option<TtEntry>, beta: i32, ply: int) -> i32 {
    match probe {
        Some(e) => if e.flag is UpperBound && tt_loaded(e.score, ply) < beta {
            tt_loaded(e.score, ply)
        } else {
            beta
        },
        None => beta,
    }
}

/// The probe decides the node: an exact entry, or a bound that closes the window.
spec fn tt_cut(probe: Option<TtEntry>, alpha: i32, beta: i32, ply: int) -> bool {
    probe matches Some(e) && (e.flag is Exact || probed_alpha(probe, alpha, ply) >= probed_beta(
        probe,
        beta,
        ply,
    ))
}

/// The depth searched at a node: one more while the side to move is in check, short
/// of the killer table's last ply.
pub open spec fn extended_depth(mv: MultiverseView, depth: int, ply: int) -> int {
    if in_check_spec(mv, mv.global_to_move) && ply < MAX_PLY - 1 {
        depth + 1
    } else {
        depth
    }
}

/// What an unstopped negamax node returns before it searches any plan: 0 in a drawn
/// position; the stored score when the table decides the node; with no legal turn,
/// `ply - MATE` in check and 0 otherwise; at the horizon, the quiescence result in
/// the probed window.
spec fn nm_settled(
    mv: MultiverseView,
    tt: Map<u64, TtEntry>,
    depth: u32,
    alpha: i32,
    beta: i32,
    ply: int,
    r: i32,
) -> bool {
    let probe = tt_probe(tt, position_hash(mv), depth);
    if drawn(mv) {
        r == 0
    } else if tt_cut(probe, alpha, beta, ply) {
        r == tt_loaded(probe->0.score, ply)
    } else if extended_depth(mv, depth as int, ply) == 0 {
        qs_window(
            r as int,
            probed_alpha(probe, alpha, ply) as int,
            probed_beta(probe, beta, ply) as int,
            side_score(mv),
        )
    } else if forall|p: Seq<Move>| !legal_plan(mv, p) {
        r == if in_check_spec(mv, mv.global_to_move) {
            ply - MATE
        } else {
            0
        }
    } else {
        true
    }
}

/// The plans a node searches: every legal plan listed once, in some order, at most
/// `MAX_PLANS_PER_POSITION` of them and all of them below that cap.
pub open spec fn plan_listing(mv: MultiverseView, plans: Seq<Seq<Move>>) -> bool {
    &&& plans.len() <= MAX_PLANS_PER_POSITION
    &&& plans.no_duplicates()
    &&& forall|i: int| 0 <= i < plans.len() ==> legal_plan(mv, #[trigger] plans[i])
    &&& plans.len() < MAX_PLANS_PER_POSITION ==> forall|p: Seq<Move>| legal_plan(mv, p) ==> plans.contains(p)
}

/// Whether the `i`-th plan of a node is searched with a reduced depth: late, quiet,
/// neither in nor into check, at depth 3 or more.
pub open spec fn nm_reduced(mv: MultiverseView, plan: Seq<Move>, i: int, d: int) -> bool {
    let child = turn_result(mv, plan);
    d >= 3 && i >= 3 && quiet_plan(plan) && !in_check_spec(mv, mv.global_to_move) && !in_check_spec(
        child,
        child.global_to_move,
    )
}

/// The outcome of the child searches of one plan (a trigger for their witnesses).
spec fn child_searches(v1: i32, t1: Map<u64, TtEntry>, v2: i32, t2: Map<u64, TtEntry>, v3: i32, t3: Map<u64, TtEntry>) -> bool {
    true
}

/// The searched plans, final table and best plan of a node (a trigger for them).
spec fn node_outcome(plans: Seq<Seq<Move>>, tt_end: Map<u64, TtEntry>, bi: int) -> bool {
    true
}

/// Whether the reduced null-window search of a later plan is repeated at full depth.
pub open spec fn nm_research_depth(alpha: i32, reduced: bool, v1: i32) -> bool {
    neg_score(v1) > alpha && reduced
}

/// The plan's score after the null-window searches, before any full-window search.
pub open spec fn nm_null_score(alpha: i32, reduced: bool, v1: i32, v2: i32) -> i32 {
    if nm_research_depth(alpha, reduced, v1) {
        neg_score(v2)
    } else {
        neg_score(v1)
    }
}

/// The score of the `i`-th plan: the first plan by a full-window search; a later one
/// by a null-window search, at reduced depth if reduced (repeated at full depth when
/// it beats `alpha`), and once more with the full window when it lands inside it.
pub open spec fn nm_plan_score(i: int, alpha: i32, beta: i32, reduced: bool, v1: i32, v2: i32, v3: i32) -> i32 {
    if i == 0 {
        neg_score(v1)
    } else {
        let s = nm_null_score(alpha, reduced, v1, v2);
        if s > alpha && s < beta {
            neg_score(v3)
        } else {
            s
        }
    }
}

/// The table after the searches of the `i`-th plan.
spec fn nm_plan_tt(
    i: int,
    alpha: i32,
    beta: i32,
    reduced: bool,
    v1: i32,
    v2: i32,
    t1: Map<u64, TtEntry>,
    t2: Map<u64, TtEntry>,
    t3: Map<u64, TtEntry>,
) -> Map<u64, TtEntry> {
    if i == 0 {
        t1
    } else {
        let s = nm_null_score(alpha, reduced, v1, v2);
        if s > alpha && s < beta {
            t3
        } else if nm_research_depth(alpha, reduced, v1) {
            t2
        } else {
            t1
        }
    }
}

/// The child searches of the `i`-th plan of a node, from table `tt`: each is a
/// negamax result of the child position from the table the previous one left.
spec fn nm_child(
    mv: MultiverseView,
    plans: Seq<Seq<Move>>,
    i: int,
    depth_in: u32,
    alpha: i32,
    beta: i32,
    ply: int,
    tt: Map<u64, TtEntry>,
    v1: i32,
    t1: Map<u64, TtEntry>,
    v2: i32,
    t2: Map<u64, TtEntry>,
    v3: i32,
    t3: Map<u64, TtEntry>,
) -> bool
    decreases nm_measure(depth_in as int, ply), 0int, plans.len() - i - 1,
{
    let d = extended_depth(mv, depth_in as int, ply);
    if i < 0 || i >= plans.len() || d < 1 || ply < 0 {
        false
    } else {
        let child = turn_result(mv, plans[i]);
        let red = nm_reduced(mv, plans[i], i, d);
        let full = (d - 1) as u32;
        let nd = (if red {
            d - 2
        } else {
            d - 1
        }) as u32;
        if i == 0 {
            nm_result(child, tt, full, neg_score(beta), neg_score(alpha), ply + 1, v1, t1)
        } else {
            let nw = add_score(neg_score(alpha), -1i32);
            &&& nm_result(child, tt, nd, nw, neg_score(alpha), ply + 1, v1, t1)
            &&& nm_research_depth(alpha, red, v1) ==> nm_result(child, t1, full, nw, neg_score(alpha), ply + 1, v2, t2)
            &&& {
                let s = nm_null_score(alpha, red, v1, v2);
                let ts = if nm_research_depth(alpha, red, v1) {
                    t2
                } else {
                    t1
                };
                s > alpha && s < beta ==> nm_result(child, ts, full, neg_score(beta), neg_score(alpha), ply + 1, v3, t3)
            }
        }
    }
}

/// Searching the plans `plans[i..]` of a node in order, with the window `(alpha,
/// beta)`, the best score `best` (first reached at `bi`) and table `tt` so far: each
/// plan's score (`nm_plan_score`) raises `best` and `alpha`; the search stops once
/// `alpha` reaches `beta` or the plans run out, with best score `r`, its plan `rbi` and
/// table `tt_end`.
spec fn nm_fold(
    mv: MultiverseView,
    plans: Seq<Seq<Move>>,
    i: int,
    depth_in: u32,
    alpha: i32,
    beta: i32,
    best: i32,
    bi: int,
    ply: int,
    tt: Map<u64, TtEntry>,
    r: i32,
    rbi: int,
    tt_end: Map<u64, TtEntry>,
) -> bool
    decreases nm_measure(depth_in as int, ply), 0int, plans.len() - i,
{
    let d = extended_depth(mv, depth_in as int, ply);
    if i < 0 || i >= plans.len() || d < 1 || ply < 0 {
        r == best && rbi == bi && tt_end == tt
    } else {
        exists|v1: i32, t1: Map<u64, TtEntry>, v2: i32, t2: Map<u64, TtEntry>, v3: i32, t3: Map<u64, TtEntry>|
            #[trigger] child_searches(v1, t1, v2, t2, v3, t3) && nm_child(
                mv,
                plans,
                i,
                depth_in,
                alpha,
                beta,
                ply,
                tt,
                v1,
                t1,
                v2,
                t2,
                v3,
                t3,
            ) && {
                let red = nm_reduced(mv, plans[i], i, d);
                let s = nm_plan_score(i, alpha, beta, red, v1, v2, v3);
                let t = nm_plan_tt(i, alpha, beta, red, v1, v2, t1, t2, t3);
                let nbest = if s > best {
                    s
                } else {
                    best
                };
                let nbi = if s > best {
                    i
                } else {
                    bi
                };
                let nalpha = if s > alpha {
                    s
                } else {
                    alpha
                };
                if nalpha >= beta {
                    r == nbest && rbi == nbi && tt_end == t
                } else {
                    nm_fold(mv, plans, i + 1, depth_in, nalpha, beta, nbest, nbi, ply, t, r, rbi, tt_end)
                }
            }
    }
}

/// `r` is a negamax result of `mv` with window `(alpha, beta)` at `ply`, searched
/// from table `tt`, which it leaves as `tt_out`: 0 in a drawn position; the stored
/// score when the table decides the node; at the horizon, the quiescence result in
/// the probed window; with no legal turn, `ply - MATE` in check and 0 otherwise; else
/// the best score of the searched plans of some listing (`nm_fold`), stored in the
/// table with its depth, bound and plan.
spec fn nm_result(
    mv: MultiverseView,
    tt: Map<u64, TtEntry>,
    depth: u32,
    alpha: i32,
    beta: i32,
    ply: int,
    r: i32,
    tt_out: Map<u64, TtEntry>,
) -> bool
    decreases nm_measure(depth as int, ply), 1int, 0int,
{
    let key = position_hash(mv);
    let probe = tt_probe(tt, key, depth);
    let a = probed_alpha(probe, alpha, ply);
    let b = probed_beta(probe, beta, ply);
    let d = extended_depth(mv, depth as int, ply);
    if drawn(mv) {
        r == 0 && tt_out == tt
    } else if tt_cut(probe, alpha, beta, ply) {
        r == tt_loaded(probe->0.score, ply) && tt_out == tt
    } else if d == 0 {
        qs_result(mv, a, b, 0, r) && tt_out == tt
    } else if forall|p: Seq<Move>| !legal_plan(mv, p) {
        r == (if in_check_spec(mv, mv.global_to_move) {
            ply - MATE
        } else {
            0
        }) && tt_out == tt
    } else {
        exists|plans: Seq<Seq<Move>>, tt_end: Map<u64, TtEntry>, bi: int|
            #[trigger] node_outcome(plans, tt_end, bi) && plan_listing(mv, plans) && nm_fold(
                mv,
                plans,
                0,
                depth,
                a,
                b,
                (-MATE - 1) as i32,
                0,
                ply,
                tt,
                r,
                bi,
                tt_end,
            ) && tt_out == tt_end.insert(
                key,
                TtEntry { depth: d as u32, score: tt_stored(r, ply), flag: bound_flag(r, a, b), best_idx: Some(bi as usize) },
            )
    }
}

/// Fail-soft negamax with principal variation search. Unless the search is stopped,
/// its result and the table it leaves are those `nm_result` describes.
#[verifier::rlimit(100)]
#[verifier::spinoff_prover]
fn negamax(mv: &Multiverse, tb: &Tables, depth_in: u32, alpha_in: i32, beta_in: i32, ctx: &mut Ctx, ply: usize) -> (r: i32)
    requires
        mv_wf(mv@),
        tables_ok(tb),
        ctx_ok(old(ctx)),
        1 <= ply,
        ply + nm_measure(depth_in as int, ply as int) <= 100_000,
        depth_in < MAX_SEARCH_DEPTH,
    ensures
        ctx_ok(final(ctx)),
        keeps_clock(old(ctx), final(ctx)),
        !final(ctx).aborted ==> nm_settled(mv@, old(ctx).tt@, depth_in, alpha_in, beta_in, ply as int, r),
        !final(ctx).aborted ==> nm_result(mv@, old(ctx).tt@, depth_in, alpha_in, beta_in, ply as int, r, final(ctx).tt@),
    decreases nm_measure(depth_in as int, ply as int),
{
    let mut alpha = alpha_in;
    let mut beta = beta_in;
    ctx.nodes = bump(ctx.nodes);
    if ctx.check_deadline() {
        return side_eval(mv);
    }
    if mv.is_50move_draw() || mv.is_threefold() || mv.is_insufficient_material() {
        return 0;
    }
    assert(!drawn(mv@));
    assert(ctx.tt@ == old(ctx).tt@);
    let key = zobrist(mv);
    let ghost pr = tt_probe(old(ctx).tt@, key, depth_in);
    let mut tt_best: Option<usize> = None;
    let probe: Option<TtEntry> = match ctx.tt.get(&key) {
        Some(e) => Some(*e),
        None => None,
    };
    assert(probe matches Some(e) ==> old(ctx).tt@.contains_key(key) && e == old(ctx).tt@[key]);
    assert(probe is None ==> !old(ctx).tt@.contains_key(key));
    if let Some(entry) = probe {
        if entry.depth >= depth_in {
            ctx.tt_hits = bump(ctx.tt_hits);
            let s = score_from_tt(entry.score, ply);
            match entry.flag {
                TtFlag::Exact => {
                    return s;
                },
                TtFlag::LowerBound => {
                    if s > alpha {
                        alpha = s;
                    }
                },
                TtFlag::UpperBound => {
                    if s < beta {
                        beta = s;
                    }
                },
            }
            if alpha >= beta {
                return s;
            }
        }
        tt_best = entry.best_idx;
    }
    assert(alpha == probed_alpha(pr, alpha_in, ply as int) && beta == probed_beta(pr, beta_in, ply as int)
        && !tt_cut(pr, alpha_in, beta_in, ply as int));
    let in_chk = in_check_with(mv, tb, mv.global_to_move);
    // Check extension: one more ply while the side to move is in check, also at the
    // horizon, so that mates there are found.
    let depth: u32 = if in_chk && ply < MAX_PLY - 1 {
        depth_in + 1
    } else {
        depth_in
    };
    if depth == 0 {
        return quiescence(mv, tb, alpha, beta, ctx, 0);
    }
    let plans0 = legal_plans_with(mv, tb);
    if plans0.len() == 0 {
        proof {
            assert forall|p: Seq<Move>| !legal_plan(mv@, p) by {
                if legal_plan(mv@, p) {
                    assert(has_plan(plans0@, p));
                }
            }
        }
        return if in_chk {
            -MATE + ply as i32
        } else {
            0
        };
    }
    proof {
        assert(legal_plan(mv@, plans0@[0]@));
        assert forall|x: i32| #[trigger] nm_settled(mv@, old(ctx).tt@, depth_in, alpha_in, beta_in, ply as int, x) by {
            assert(!(forall|p: Seq<Move>| !legal_plan(mv@, p)));
        }
    }
    let pv_sig: Option<u64> = match tt_best {
        Some(i) => if i < plans0.len() {
            Some(plan_sig(&plans0[i]))
        } else {
            None
        },
        None => None,
    };
    proof {
        assert forall|i: int| 0 <= i < plans0@.len() implies (#[trigger] plans0@[i])@.len() <= MAX_TURN_LENGTH by {
            lemma_legal_applicable(mv@, plans0@[i]@);
        }
    }
    let plans = order_plans_scored(mv, &plans0, ply, ctx, pv_sig);
    let ghost pv: Seq<Seq<Move>> = plans@.map_values(|p: Vec<Move>| p@);
    let ghost tt0 = ctx.tt@;
    proof {
        assert(ctx.tt@ == old(ctx).tt@);
        assert forall|a: int, b: int| 0 <= a < b < pv.len() implies pv[a] != pv[b] by {
            assert(plans@[a]@ != plans@[b]@);
        }
        assert forall|k: int| 0 <= k < pv.len() implies legal_plan(mv@, #[trigger] pv[k]) by {
            assert(has_plan(plans0@, plans@[k]@));
            let j = choose|j: int| 0 <= j < plans0@.len() && #[trigger] plans0@[j]@ == plans@[k]@;
        }
        if pv.len() < MAX_PLANS_PER_POSITION {
            assert forall|p: Seq<Move>| legal_plan(mv@, p) implies pv.contains(p) by {
                assert(has_plan(plans0@, p));
                assert(has_plan(plans@, p));
                let k = choose|k: int| 0 <= k < plans@.len() && #[trigger] plans@[k]@ == p;
                assert(pv[k] == p);
            }
        }
        assert(plan_listing(mv@, pv));
        assert(depth as int == extended_depth(mv@, depth_in as int, ply as int));
    }
    let orig_alpha = alpha;
    let mut best: i32 = -MATE - 1;
    let mut best_idx: usize = 0;
    let mut i: usize = 0;
    while i < plans.len()
        invariant_except_break
            i >= plans@.len() ==> nm_fold(mv@, pv, i as int, depth_in, alpha, beta, best, best_idx as int, ply as int, ctx.tt@, best, best_idx as int, ctx.tt@),
            forall|x: i32, bx: int, te: Map<u64, TtEntry>|
                #[trigger] nm_fold(mv@, pv, i as int, depth_in, alpha, beta, best, best_idx as int, ply as int, ctx.tt@, x, bx, te)
                    ==> nm_fold(mv@, pv, 0, depth_in, orig_alpha, beta, (-MATE - 1) as i32, 0, ply as int, tt0, x, bx, te),
        invariant
            i <= plans@.len(),
            mv_wf(mv@),
            tables_ok(tb),
            ctx_ok(ctx),
            keeps_clock(old(ctx), ctx),
            1 <= ply,
            depth >= 1,
            ply + nm_measure(depth_in as int, ply as int) <= 100_000,
            depth_in < MAX_SEARCH_DEPTH,
            depth == depth_in || (depth == depth_in + 1 && ply < MAX_PLY - 1),
            depth as int == extended_depth(mv@, depth_in as int, ply as int),
            in_chk == in_check_spec(mv@, mv@.global_to_move),
            forall|k: int| 0 <= k < plans@.len() ==> has_plan(plans0@, (#[trigger] plans@[k])@),
            forall|j: int| 0 <= j < plans0@.len() ==> legal_plan(mv@, #[trigger] plans0@[j]@),
            forall|x: i32| #[trigger] nm_settled(mv@, old(ctx).tt@, depth_in, alpha_in, beta_in, ply as int, x),
            pv == plans@.map_values(|p: Vec<Move>| p@),
            pv.len() == plans@.len(),
            !ctx.aborted,
            best_idx < plans@.len() || best_idx == 0,
        ensures
            nm_fold(mv@, pv, 0, depth_in, orig_alpha, beta, (-MATE - 1) as i32, 0, ply as int, tt0, best, best_idx as int, ctx.tt@),
        decreases plans@.len() - i,
    {
        let plan = &plans[i];
        proof {
            assert(has_plan(plans0@, plans@[i as int]@));
            let j = choose|j: int| 0 <= j < plans0@.len() && #[trigger] plans0@[j]@ == plans@[i as int]@;
            lemma_legal_applicable(mv@, plans0@[j]@);
            assert(pv[i as int] == plan@);
        }
        let ghost ti = ctx.tt@;
        let ghost a0 = alpha;
        let ghost b0 = best;
        let ghost bi0 = best_idx as int;
        let child = apply_turn(mv, plan);
        let quiet = is_quiet(plan);
        let gives_check = in_check_with(&child, tb, child.global_to_move);
        // Late move reduction for quiet late plans, not in or into check.
        let reduce: u32 = if depth >= 3 && i >= 3 && quiet && !in_chk && !gives_check {
            1
        } else {
            0
        };
        proof {
            assert((reduce > 0) == nm_reduced(mv@, pv[i as int], i as int, depth as int));
        }
        let nd = depth - 1 - reduce;
        let ghost mut g1: i32 = 0;
        let ghost mut g2: i32 = 0;
        let ghost mut g3: i32 = 0;
        let ghost mut t1 = ti;
        let ghost mut t2 = ti;
        let ghost mut t3 = ti;
        let score: i32;
        if i == 0 {
            let v = negamax(&child, tb, depth - 1, neg(beta), neg(alpha), ctx, ply + 1);
            proof {
                g1 = v;
                t1 = ctx.tt@;
            }
            score = neg(v);
        } else {
            let v = negamax(&child, tb, nd, add_sat(neg(alpha), -1), neg(alpha), ctx, ply + 1);
            proof {
                g1 = v;
                t1 = ctx.tt@;
                t2 = ctx.tt@;
            }
            let mut s = neg(v);
            if s > alpha && reduce > 0 && !ctx.aborted {
                let w = negamax(&child, tb, depth - 1, add_sat(neg(alpha), -1), neg(alpha), ctx, ply + 1);
                proof {
                    g2 = w;
                    t2 = ctx.tt@;
                }
                s = neg(w);
            }
            if s > alpha && s < beta && !ctx.aborted {
                let u = negamax(&child, tb, depth - 1, neg(beta), neg(alpha), ctx, ply + 1);
                proof {
                    g3 = u;
                    t3 = ctx.tt@;
                }
                s = neg(u);
            }
            score = s;
        }
        if ctx.aborted {
            return if best > alpha {
                best
            } else {
                alpha
            };
        }
        proof {
            assert(child@ == turn_result(mv@, pv[i as int]));
            assert(child_searches(g1, t1, g2, t2, g3, t3));
            assert(nm_child(mv@, pv, i as int, depth_in, a0, beta, ply as int, ti, g1, t1, g2, t2, g3, t3));
            assert(score == nm_plan_score(i as int, a0, beta, reduce > 0, g1, g2, g3));
            assert(ctx.tt@ == nm_plan_tt(i as int, a0, beta, reduce > 0, g1, g2, t1, t2, t3));
        }
        if score > best {
            best = score;
            best_idx = i;
        }
        if score > alpha {
            alpha = score;
        }
        if alpha >= beta {
            proof {
                assert(nm_fold(mv@, pv, i as int, depth_in, a0, beta, b0, bi0, ply as int, ti, best, best_idx as int, ctx.tt@));
            }
            if quiet {
                let sig = plan_sig(plan);
                record_killer(ctx, ply, sig);
                bump_history(ctx, sig, depth);
            }
            break;
        }
        proof {
            assert forall|x: i32, bx: int, te: Map<u64, TtEntry>|
                #[trigger] nm_fold(mv@, pv, i + 1, depth_in, alpha, beta, best, best_idx as int, ply as int, ctx.tt@, x, bx, te)
                    implies nm_fold(mv@, pv, 0, depth_in, orig_alpha, beta, (-MATE - 1) as i32, 0, ply as int, tt0, x, bx, te) by {
                assert(nm_fold(mv@, pv, i as int, depth_in, a0, beta, b0, bi0, ply as int, ti, x, bx, te));
            }
        }
        i = i + 1;
    }
    let flag = if best <= orig_alpha {
        TtFlag::UpperBound
    } else if best >= beta {
        TtFlag::LowerBound
    } else {
        TtFlag::Exact
    };
    let ghost tt_end = ctx.tt@;
    ctx.tt.insert(key, TtEntry { depth, score: score_to_tt(best, ply), flag, best_idx: Some(best_idx) });
    proof {
        assert(node_outcome(pv, tt_end, best_idx as int));
        assert(flag == bound_flag(best, orig_alpha, beta));
    }
    best
}

/// The bound that a fail-soft score gives for the window `(alpha, beta)`.
spec fn bound_flag(score: i32, alpha: i32, beta: i32) -> TtFlag {
    if score <= alpha {
        TtFlag::UpperBound
    } else if score >= beta {
        TtFlag::LowerBound
    } else {
        TtFlag::Exact
    }
}

/// The table holds, under `key`, the root result of a completed iteration: its
/// depth, its score, the bound that score gives for the window, and the index of the
/// best plan.
spec fn stored_root(tt: Map<u64, TtEntry>, key: u64, depth: u32, score: i32, alpha: i32, beta: i32) -> bool {
    &&& tt.contains_key(key)
    &&& tt[key].depth == depth
    &&& tt[key].score == score
    &&& tt[key].flag == bound_flag(score, alpha, beta)
    &&& tt[key].best_idx is Some
}

/// The outcome of the child searches of one root plan (a trigger for them).
spec fn root_searches(v1: i32, t1: Map<u64, TtEntry>, v3: i32, t3: Map<u64, TtEntry>) -> bool {
    true
}

/// The score of the `i`-th root plan: the first by a full-window search, a later one
/// by a null-window search, repeated with the full window when it lands inside it.
pub open spec fn root_plan_score(i: int, alpha: i32, beta: i32, v1: i32, v3: i32) -> i32 {
    if i == 0 {
        neg_score(v1)
    } else if neg_score(v1) > alpha && neg_score(v1) < beta {
        neg_score(v3)
    } else {
        neg_score(v1)
    }
}

/// The table after the searches of the `i`-th root plan.
spec fn root_plan_tt(i: int, alpha: i32, beta: i32, v1: i32, t1: Map<u64, TtEntry>, t3: Map<u64, TtEntry>) -> Map<
    u64,
    TtEntry,
> {
    if i > 0 && neg_score(v1) > alpha && neg_score(v1) < beta {
        t3
    } else {
        t1
    }
}

/// The child searches of the `i`-th root plan from table `tt`, one ply below the root
/// and one depth less.
spec fn root_child(
    mv: MultiverseView,
    plans: Seq<Seq<Move>>,
    i: int,
    depth: u32,
    alpha: i32,
    beta: i32,
    tt: Map<u64, TtEntry>,
    v1: i32,
    t1: Map<u64, TtEntry>,
    v3: i32,
    t3: Map<u64, TtEntry>,
) -> bool {
    let child = turn_result(mv, plans[i]);
    let full = (depth - 1) as u32;
    if i == 0 {
        nm_result(child, tt, full, neg_score(beta), neg_score(alpha), 1, v1, t1)
    } else {
        &&& nm_result(child, tt, full, add_score(neg_score(alpha), -1i32), neg_score(alpha), 1, v1, t1)
        &&& neg_score(v1) > alpha && neg_score(v1) < beta ==> nm_result(
            child,
            t1,
            full,
            neg_score(beta),
            neg_score(alpha),
            1,
            v3,
            t3,
        )
    }
}

/// Searching the root plans `plans[i..]` in order, as `nm_fold` does below the root.
spec fn root_fold(
    mv: MultiverseView,
    plans: Seq<Seq<Move>>,
    i: int,
    depth: u32,
    alpha: i32,
    beta: i32,
    best: i32,
    bi: int,
    tt: Map<u64, TtEntry>,
    r: i32,
    rbi: int,
    tt_end: Map<u64, TtEntry>,
) -> bool
    decreases plans.len() - i,
{
    if i < 0 || i >= plans.len() {
        r == best && rbi == bi && tt_end == tt
    } else {
        exists|v1: i32, t1: Map<u64, TtEntry>, v3: i32, t3: Map<u64, TtEntry>|
            #[trigger] root_searches(v1, t1, v3, t3) && root_child(mv, plans, i, depth, alpha, beta, tt, v1, t1, v3, t3)
                && {
                let s = root_plan_score(i, alpha, beta, v1, v3);
                let t = root_plan_tt(i, alpha, beta, v1, t1, t3);
                let nbest = if s > best {
                    s
                } else {
                    best
                };
                let nbi = if s > best {
                    i
                } else {
                    bi
                };
                let nalpha = if s > alpha {
                    s
                } else {
                    alpha
                };
                if nalpha >= beta {
                    r == nbest && rbi == nbi && tt_end == t
                } else {
                    root_fold(mv, plans, i + 1, depth, nalpha, beta, nbest, nbi, t, r, rbi, tt_end)
                }
            }
    }
}

/// `(r, plan)` is the result of a completed root search of `mv` at `depth` with the
/// window `(alpha, beta)` from table `tt`, which it leaves as `tt_out`: over some
/// listing of the legal plans, `r` is the best score of the searched plans
/// (`root_fold`), `plan` the first plan reaching it, and the table records the root
/// with its depth, score, bound and plan index.
spec fn root_result(
    mv: MultiverseView,
    tt: Map<u64, TtEntry>,
    depth: u32,
    alpha: i32,
    beta: i32,
    r: i32,
    plan: Seq<Move>,
    tt_out: Map<u64, TtEntry>,
) -> bool {
    exists|plans: Seq<Seq<Move>>, tt_end: Map<u64, TtEntry>, bi: int|
        #[trigger] node_outcome(plans, tt_end, bi) && plan_listing(mv, plans) && 0 <= bi < plans.len() && plan
            == plans[bi] && root_fold(mv, plans, 0, depth, alpha, beta, (-MATE - 1) as i32, 0, tt, r, bi, tt_end)
            && tt_out == tt_end.insert(
            position_hash(mv),
            TtEntry { depth, score: r, flag: bound_flag(r, alpha, beta), best_idx: Some(bi as usize) },
        )
}

/// The root of one iteration, searched with the window `(alpha_init, beta)`: the
/// score, the best plan found, and whether the iteration completed; a completed root
/// with a plan is a `root_result`.
#[verifier::rlimit(100)]
#[verifier::spinoff_prover]
fn negamax_root_window(mv: &Multiverse, tb: &Tables, depth: u32, ctx: &mut Ctx, alpha_init: i32, beta: i32) -> (r: (
    i32,
    Option<TurnPlan>,
    bool,
))
    requires
        mv_wf(mv@),
        tables_ok(tb),
        ctx_ok(old(ctx)),
        !old(ctx).aborted,
        1 <= depth <= MAX_SEARCH_DEPTH,
    ensures
        ctx_ok(final(ctx)),
        keeps_clock(old(ctx), final(ctx)),
        unbounded(old(ctx)) ==> r.2,
        r.1 matches Some(p) ==> legal_plan(mv@, p@),
        r.2 ==> (r.1 is None <==> forall|p: Seq<Move>| !legal_plan(mv@, p)),
        r.2 && r.1 is None ==> r.0 == (if in_check_spec(mv@, mv@.global_to_move) {
            -MATE
        } else {
            0
        }),
        r.2 && r.1 is Some ==> stored_root(final(ctx).tt@, position_hash(mv@), depth, r.0, alpha_init, beta),
        r.2 && r.1 is None ==> final(ctx).tt@ == old(ctx).tt@,
        r.2 && r.1 is Some ==> root_result(mv@, old(ctx).tt@, depth, alpha_init, beta, r.0, r.1->0@, final(ctx).tt@),
{
    if past(&ctx.deadline) {
        ctx.aborted = true;
        return (0, None, false);
    }
    let plans0 = legal_plans_with(mv, tb);
    if plans0.len() == 0 {
        let score = if in_check_with(mv, tb, mv.global_to_move) {
            -MATE
        } else {
            0
        };
        proof {
            assert forall|p: Seq<Move>| !legal_plan(mv@, p) by {
                if legal_plan(mv@, p) {
                    assert(crate::legal::has_plan(plans0@, p));
                }
            }
        }
        return (score, None, true);
    }
    let key = zobrist(mv);
    let probe: Option<TtEntry> = match ctx.tt.get(&key) {
        Some(e) => Some(*e),
        None => None,
    };
    let pv_sig: Option<u64> = match probe {
        Some(e) => match e.best_idx {
            Some(i) => if i < plans0.len() {
                Some(plan_sig(&plans0[i]))
            } else {
                None
            },
            None => None,
        },
        None => None,
    };
    proof {
        assert forall|i: int| 0 <= i < plans0@.len() implies (#[trigger] plans0@[i])@.len() <= MAX_TURN_LENGTH by {
            lemma_legal_applicable(mv@, plans0@[i]@);
        }
    }
    let plans = order_plans_scored(mv, &plans0, 0, ctx, pv_sig);
    let ghost pv: Seq<Seq<Move>> = plans@.map_values(|p: Vec<Move>| p@);
    let ghost tt0 = ctx.tt@;
    proof {
        assert forall|a: int, b: int| 0 <= a < b < pv.len() implies pv[a] != pv[b] by {
            assert(plans@[a]@ != plans@[b]@);
        }
        assert forall|k: int| 0 <= k < pv.len() implies legal_plan(mv@, #[trigger] pv[k]) by {
            assert(has_plan(plans0@, plans@[k]@));
            let j = choose|j: int| 0 <= j < plans0@.len() && #[trigger] plans0@[j]@ == plans@[k]@;
        }
        if pv.len() < MAX_PLANS_PER_POSITION {
            assert forall|p: Seq<Move>| legal_plan(mv@, p) implies pv.contains(p) by {
                assert(has_plan(plans0@, p));
                assert(has_plan(plans@, p));
                let k = choose|k: int| 0 <= k < plans@.len() && #[trigger] plans@[k]@ == p;
                assert(pv[k] == p);
            }
        }
        assert(plan_listing(mv@, pv));
    }
    let mut alpha = alpha_init;
    let mut best_plan = copy_plan(&plans[0]);
    proof {
        assert(has_plan(plans0@, plans@[0]@));
        let j = choose|j: int| 0 <= j < plans0@.len() && #[trigger] plans0@[j]@ == plans@[0]@;
    }
    let mut best_score: i32 = -MATE - 1;
    let mut best_idx: usize = 0;
    let mut i: usize = 0;
    while i < plans.len()
        invariant_except_break
            i >= plans@.len() ==> root_fold(mv@, pv, i as int, depth, alpha, beta, best_score, best_idx as int, ctx.tt@, best_score, best_idx as int, ctx.tt@),
            forall|x: i32, bx: int, te: Map<u64, TtEntry>|
                #[trigger] root_fold(mv@, pv, i as int, depth, alpha, beta, best_score, best_idx as int, ctx.tt@, x, bx, te)
                    ==> root_fold(mv@, pv, 0, depth, alpha_init, beta, (-MATE - 1) as i32, 0, tt0, x, bx, te),
        invariant
            i <= plans@.len(),
            mv_wf(mv@),
            tables_ok(tb),
            ctx_ok(ctx),
            keeps_clock(old(ctx), ctx),
            1 <= depth <= MAX_SEARCH_DEPTH,
            legal_plan(mv@, best_plan@),
            forall|k: int| 0 <= k < plans@.len() ==> has_plan(plans0@, (#[trigger] plans@[k])@),
            forall|j: int| 0 <= j < plans0@.len() ==> legal_plan(mv@, #[trigger] plans0@[j]@),
            pv == plans@.map_values(|p: Vec<Move>| p@),
            pv.len() == plans@.len(),
            plans@.len() > 0,
            best_idx < plans@.len(),
            best_plan@ == pv[best_idx as int],
            !ctx.aborted,
        ensures
            root_fold(mv@, pv, 0, depth, alpha_init, beta, (-MATE - 1) as i32, 0, tt0, best_score, best_idx as int, ctx.tt@),
        decreases plans@.len() - i,
    {
        if past(&ctx.deadline) {
            ctx.aborted = true;
            return (best_score, Some(best_plan), false);
        }
        let plan = &plans[i];
        proof {
            assert(has_plan(plans0@, plans@[i as int]@));
            let j = choose|j: int| 0 <= j < plans0@.len() && #[trigger] plans0@[j]@ == plans@[i as int]@;
            lemma_legal_applicable(mv@, plans0@[j]@);
            assert(pv[i as int] == plan@);
        }
        let ghost ti = ctx.tt@;
        let ghost a0 = alpha;
        let ghost b0 = best_score;
        let ghost bi0 = best_idx as int;
        let child = apply_turn(mv, plan);
        let ghost mut g1: i32 = 0;
        let ghost mut g3: i32 = 0;
        let ghost mut t1 = ti;
        let ghost mut t3 = ti;
        let score: i32;
        if i == 0 {
            let v = negamax(&child, tb, depth - 1, neg(beta), neg(alpha), ctx, 1);
            proof {
                g1 = v;
                t1 = ctx.tt@;
            }
            score = neg(v);
        } else {
            let v = negamax(&child, tb, depth - 1, add_sat(neg(alpha), -1), neg(alpha), ctx, 1);
            proof {
                g1 = v;
                t1 = ctx.tt@;
            }
            let s = neg(v);
            if s > alpha && s < beta && !ctx.aborted {
                let u = negamax(&child, tb, depth - 1, neg(beta), neg(alpha), ctx, 1);
                proof {
                    g3 = u;
                    t3 = ctx.tt@;
                }
                score = neg(u);
            } else {
                score = s;
            }
        }
        if ctx.aborted {
            return (best_score, Some(best_plan), false);
        }
        proof {
            assert(child@ == turn_result(mv@, pv[i as int]));
            assert(root_searches(g1, t1, g3, t3));
            assert(root_child(mv@, pv, i as int, depth, a0, beta, ti, g1, t1, g3, t3));
            assert(score == root_plan_score(i as int, a0, beta, g1, g3));
            assert(ctx.tt@ == root_plan_tt(i as int, a0, beta, g1, t1, t3));
        }
        if score > best_score {
            best_score = score;
            best_plan = copy_plan(plan);
            best_idx = i;
        }
        if score > alpha {
            alpha = score;
        }
        if alpha >= beta {
            proof {
                assert(root_fold(mv@, pv, i as int, depth, a0, beta, b0, bi0, ti, best_score, best_idx as int, ctx.tt@));
            }
            break;
        }
        proof {
            assert forall|x: i32, bx: int, te: Map<u64, TtEntry>|
                #[trigger] root_fold(mv@, pv, i + 1, depth, alpha, beta, best_score, best_idx as int, ctx.tt@, x, bx, te)
                    implies root_fold(mv@, pv, 0, depth, alpha_init, beta, (-MATE - 1) as i32, 0, tt0, x, bx, te) by {
                assert(root_fold(mv@, pv, i as int, depth, a0, beta, b0, bi0, ti, x, bx, te));
            }
        }
        i = i + 1;
    }
    let flag = if best_score <= alpha_init {
        TtFlag::UpperBound
    } else if best_score >= beta {
        TtFlag::LowerBound
    } else {
        TtFlag::Exact
    };
    let ghost tt_end = ctx.tt@;
    ctx.tt.insert(key, TtEntry { depth, score: best_score, flag, best_idx: Some(best_idx) });
    proof {
        assert(node_outcome(pv, tt_end, best_idx as int));
        assert(flag == bound_flag(best_score, alpha_init, beta));
    }
    (best_score, Some(best_plan), true)
}

/// The window of the first search of an iteration: around the previous iteration's
/// score by 35 when there is one and it is far from mate, else the full window.
pub open spec fn first_window(prev: Option<i32>) -> (i32, i32) {
    match prev {
        Some(s) => if -MATE / 2 < s && s < MATE / 2 {
            ((s - 35) as i32, (s + 35) as i32)
        } else {
            ((-MATE - 1) as i32, (MATE + 1) as i32)
        },
        None => ((-MATE - 1) as i32, (MATE + 1) as i32),
    }
}

/// The delta after a failed window: doubled, at most 1000.
pub open spec fn widened(delta: i32) -> i32 {
    if delta < 500 {
        (delta * 2) as i32
    } else {
        1000
    }
}

/// The outcome of one root search (a trigger for it).
spec fn root_outcome(score: i32, plan: Option<Seq<Move>>, tt: Map<u64, TtEntry>) -> bool {
    true
}

/// A completed root search of `mv` at `depth` with window `(alpha, beta)` from table
/// `tt`: with no legal plan, no plan and the mate or stalemate score, the table
/// untouched; else `root_result`.
spec fn root_done(
    mv: MultiverseView,
    tt: Map<u64, TtEntry>,
    depth: u32,
    alpha: i32,
    beta: i32,
    score: i32,
    plan: Option<Seq<Move>>,
    tt_out: Map<u64, TtEntry>,
) -> bool {
    if forall|p: Seq<Move>| !legal_plan(mv, p) {
        plan is None && score == (if in_check_spec(mv, mv.global_to_move) {
            -MATE
        } else {
            0
        }) && tt_out == tt
    } else {
        plan matches Some(p) && root_result(mv, tt, depth, alpha, beta, score, p, tt_out)
    }
}

/// One iteration at `depth` with aspiration windows, from window `(alpha, beta)`,
/// step `delta` and table `tt`: the root search's score `s`; when it fails low (high)
/// and the window is not yet open on that side, the window's edge moves to `s - delta`
/// (`s + delta`), at most to the full window, `delta` is widened, and the search is
/// repeated; otherwise its score and plan are the iteration's.
#[verifier::opaque]
spec fn asp_fold(
    mv: MultiverseView,
    depth: u32,
    alpha: i32,
    beta: i32,
    delta: i32,
    tt: Map<u64, TtEntry>,
    score: i32,
    plan: Option<Seq<Move>>,
    tt_out: Map<u64, TtEntry>,
) -> bool
    decreases (alpha + MATE + 1) + (MATE + 1 - beta),
{
    if alpha < -MATE - 1 || beta > MATE + 1 || delta < 35 {
        false
    } else {
        exists|s: i32, p: Option<Seq<Move>>, t: Map<u64, TtEntry>|
            #[trigger] root_outcome(s, p, t) && root_done(mv, tt, depth, alpha, beta, s, p, t) && if s <= alpha
                && alpha != -MATE - 1 {
                asp_fold(
                    mv,
                    depth,
                    (if s < -MATE - 1 + delta {
                        -MATE - 1
                    } else {
                        s - delta
                    }) as i32,
                    beta,
                    widened(delta),
                    t,
                    score,
                    plan,
                    tt_out,
                )
            } else if s > alpha && s >= beta && beta != MATE + 1 {
                asp_fold(
                    mv,
                    depth,
                    alpha,
                    (if s > MATE + 1 - delta {
                        MATE + 1
                    } else {
                        s + delta
                    }) as i32,
                    widened(delta),
                    t,
                    score,
                    plan,
                    tt_out,
                )
            } else {
                score == s && plan == p && tt_out == t
            }
    }
}

/// Iterative deepening from `depth` to `top`, each iteration opening with
/// `first_window` of the previous score and the table the previous one left: the
/// score and plan of the last iteration.
#[verifier::opaque]
spec fn deepen(
    mv: MultiverseView,
    depth: u32,
    top: u32,
    prev: Option<i32>,
    tt: Map<u64, TtEntry>,
    score: i32,
    plan: Option<Seq<Move>>,
) -> bool
    decreases top - depth,
{
    exists|s: i32, p: Option<Seq<Move>>, t: Map<u64, TtEntry>|
        #[trigger] root_outcome(s, p, t) && asp_fold(mv, depth, first_window(prev).0, first_window(prev).1, 35, tt, s, p, t)
            && if depth >= top {
            score == s && plan == p
        } else {
            deepen(mv, (depth + 1) as u32, top, Some(s), t, score, plan)
        }
}

/// The plan of a search result, by its moves.
pub open spec fn plan_of(best: Option<TurnPlan>) -> Option<Seq<Move>> {
    match best {
        Some(p) => Some(p@),
        None => None,
    }
}

/// `(score, plan)` is what iterative deepening to `top` (at least 1) without a deadline
/// reports for `mv`: starting from an empty table and no previous score, every
/// iteration searches the root with aspiration windows (`asp_fold`) over some listing
/// of the legal plans, each child by the negamax rules (`nm_result`); the last
/// iteration's score and best plan are the result.
pub closed spec fn deepened(mv: MultiverseView, top: u32, score: i32, plan: Option<Seq<Move>>) -> bool {
    deepen(mv, 1, top, None, Map::empty(), score, plan)
}

/// One iteration of iterative deepening at `depth`: root searches with an aspiration
/// window around the previous iteration's score, widened after each failure. The
/// score, best plan, and whether the iteration completed.
#[verifier::rlimit(100)]
fn aspiration(mv: &Multiverse, tb: &Tables, depth: u32, ctx: &mut Ctx, prev_score: Option<i32>) -> (r: (
    i32,
    Option<TurnPlan>,
    bool,
))
    requires
        mv_wf(mv@),
        tables_ok(tb),
        ctx_ok(old(ctx)),
        !old(ctx).aborted,
        1 <= depth <= MAX_SEARCH_DEPTH,
    ensures
        ctx_ok(final(ctx)),
        keeps_clock(old(ctx), final(ctx)),
        r.1 matches Some(p) ==> legal_plan(mv@, p@),
        r.2 ==> (r.1 is None <==> forall|p: Seq<Move>| !legal_plan(mv@, p)),
        r.2 && r.1 is None ==> r.0 == (if in_check_spec(mv@, mv@.global_to_move) {
            -MATE
        } else {
            0
        }),
        unbounded(old(ctx)) ==> unbounded(final(ctx)) && r.2,
        unbounded(old(ctx)) ==> asp_fold(
            mv@,
            depth,
            first_window(prev_score).0,
            first_window(prev_score).1,
            35,
            old(ctx).tt@,
            r.0,
            plan_of(r.1),
            final(ctx).tt@,
        ),
{
    // Aspiration window around the previous score; a full window first and near
    // mate scores.
    let mut delta: i32 = 35;
    let (mut alpha, mut beta): (i32, i32) = match prev_score {
        Some(s) => if -MATE / 2 < s && s < MATE / 2 {
            (s - delta, s + delta)
        } else {
            (-MATE - 1, MATE + 1)
        },
        None => (-MATE - 1, MATE + 1),
    };
    let mut score: i32 = 0;
    let mut best: Option<TurnPlan> = None;
    let mut completed: bool = false;
    let ghost a_init = alpha;
    let ghost b_init = beta;
    let ghost tt_iter = ctx.tt@;
    proof {
        reveal(asp_fold);
        assert((a_init, b_init) == first_window(prev_score));
    }
    loop
        invariant_except_break
            !ctx.aborted,
            unbounded(old(ctx)) ==> forall|x: i32, y: Option<Seq<Move>>, z: Map<u64, TtEntry>|
                #[trigger] asp_fold(mv@, depth, alpha, beta, delta, ctx.tt@, x, y, z) ==> asp_fold(
                    mv@,
                    depth,
                    a_init,
                    b_init,
                    35,
                    tt_iter,
                    x,
                    y,
                    z,
                ),
        invariant
            -MATE - 1 <= alpha <= MATE + 1,
            -MATE - 1 <= beta <= MATE + 1,
            35 <= delta <= 1000,
            1 <= depth <= MAX_SEARCH_DEPTH,
            mv_wf(mv@),
            tables_ok(tb),
            ctx_ok(ctx),
            keeps_clock(old(ctx), ctx),
            unbounded(old(ctx)) ==> unbounded(ctx),
        ensures
            ctx_ok(ctx),
            best matches Some(p) ==> legal_plan(mv@, p@),
            completed ==> (best is None <==> forall|p: Seq<Move>| !legal_plan(mv@, p)),
            completed && best is None ==> score == (if in_check_spec(mv@, mv@.global_to_move) {
                -MATE
            } else {
                0
            }),
            unbounded(old(ctx)) ==> unbounded(ctx) && completed,
            unbounded(old(ctx)) ==> asp_fold(mv@, depth, a_init, b_init, 35, tt_iter, score, plan_of(best), ctx.tt@),
        decreases (alpha + MATE + 1) + (MATE + 1 - beta),
    {
        let ghost t_before = ctx.tt@;
        let ghost a0 = alpha;
        let ghost b0 = beta;
        let ghost d0 = delta;
        let res = negamax_root_window(mv, tb, depth, ctx, alpha, beta);
        score = res.0;
        best = res.1;
        completed = res.2;
        proof {
            if unbounded(old(ctx)) {
                assert(root_done(mv@, t_before, depth, a0, b0, score, plan_of(best), ctx.tt@));
                assert(root_outcome(score, plan_of(best), ctx.tt@));
            }
        }
        if !completed || ctx.aborted {
            break;
        }
        if score <= alpha {
            if alpha == -MATE - 1 {
                proof {
                    if unbounded(old(ctx)) {
                        reveal(asp_fold);
                        assert(asp_fold(mv@, depth, a0, b0, d0, t_before, score, plan_of(best), ctx.tt@));
                    }
                }
                break;
            }
            let lowered: i32 = if score < -MATE - 1 + delta {
                -MATE - 1
            } else {
                score - delta
            };
            alpha = lowered;
            delta = if delta < 500 {
                delta * 2
            } else {
                1000
            };
            proof {
                if unbounded(old(ctx)) {
                    assert forall|x: i32, y: Option<Seq<Move>>, z: Map<u64, TtEntry>|
                        #[trigger] asp_fold(mv@, depth, alpha, beta, delta, ctx.tt@, x, y, z) implies asp_fold(
                            mv@,
                            depth,
                            a_init,
                            b_init,
                            35,
                            tt_iter,
                            x,
                            y,
                            z,
                        ) by {
                        reveal(asp_fold);
                        assert(asp_fold(mv@, depth, a0, b0, d0, t_before, x, y, z));
                    }
                }
            }
            continue;
        }
        if score >= beta {
            if beta == MATE + 1 {
                proof {
                    if unbounded(old(ctx)) {
                        reveal(asp_fold);
                        assert(asp_fold(mv@, depth, a0, b0, d0, t_before, score, plan_of(best), ctx.tt@));
                    }
                }
                break;
            }
            let raised: i32 = if score > MATE + 1 - delta {
                MATE + 1
            } else {
                score + delta
            };
            beta = raised;
            delta = if delta < 500 {
                delta * 2
            } else {
                1000
            };
            proof {
                if unbounded(old(ctx)) {
                    assert forall|x: i32, y: Option<Seq<Move>>, z: Map<u64, TtEntry>|
                        #[trigger] asp_fold(mv@, depth, alpha, beta, delta, ctx.tt@, x, y, z) implies asp_fold(
                            mv@,
                            depth,
                            a_init,
                            b_init,
                            35,
                            tt_iter,
                            x,
                            y,
                            z,
                        ) by {
                        reveal(asp_fold);
                        assert(asp_fold(mv@, depth, a0, b0, d0, t_before, x, y, z));
                    }
                }
            }
            continue;
        }
        proof {
            if unbounded(old(ctx)) {
                reveal(asp_fold);
                assert(asp_fold(mv@, depth, a0, b0, d0, t_before, score, plan_of(best), ctx.tt@));
            }
        }
        break;
    }
    (score, best, completed)
}

/// One more iteration of iterative deepening carries the search's result forward.
proof fn lemma_deepen_step(
    mv: MultiverseView,
    depth: u32,
    top: u32,
    prev: Option<i32>,
    tt: Map<u64, TtEntry>,
    s: i32,
    p: Option<Seq<Move>>,
    t: Map<u64, TtEntry>,
)
    requires
        depth <= top,
        asp_fold(mv, depth, first_window(prev).0, first_window(prev).1, 35, tt, s, p, t),
        forall|x: i32, y: Option<Seq<Move>>| #[trigger] deepen(mv, depth, top, prev, tt, x, y) ==> deepened(mv, top, x, y),
    ensures
        depth == top ==> deepened(mv, top, s, p),
        depth < top ==> forall|x: i32, y: Option<Seq<Move>>|
            #[trigger] deepen(mv, (depth + 1) as u32, top, Some(s), t, x, y) ==> deepened(mv, top, x, y),
{
    reveal(deepen);
    assert(root_outcome(s, p, t));
    if depth == top {
        assert(deepen(mv, depth, top, prev, tt, s, p));
    } else {
        assert forall|x: i32, y: Option<Seq<Move>>|
            #[trigger] deepen(mv, (depth + 1) as u32, top, Some(s), t, x, y) implies deepened(mv, top, x, y) by {
            assert(deepen(mv, depth, top, prev, tt, x, y));
        }
    }
}

/// `search_with_timeout` without a time limit.
pub fn search(mv: &Multiverse, max_depth: u32) -> (r: SearchResult)
    requires
        mv_wf(mv@),
    ensures
        r.best matches Some(p) ==> legal_plan(mv@, p@),
        r.depth == depth_cap(max_depth),
        r.depth >= 1 ==> (r.best is None <==> forall|p: Seq<Move>| !legal_plan(mv@, p)),
        r.depth >= 1 && r.best is None ==> r.score == (if in_check_spec(mv@, mv@.global_to_move) {
            -MATE
        } else {
            0
        }),
        r.depth == 0 ==> r.best is None && r.score == 0,
        depth_cap(max_depth) >= 1 ==> deepened(mv@, depth_cap(max_depth), r.score, plan_of(r.best)),
{
    search_with_timeout(mv, max_depth, u128::MAX)
}

/// Iterative deepening up to `max_depth` with a soft deadline of `max_ms`
/// milliseconds (`u128::MAX`: none), aspiration windows around the previous
/// iteration's score, widened on failure. The result comes from the deepest
/// completed iteration: its plan, if any, is a legal turn plan of the position, and
/// there is none exactly when the side to move has no legal turn, which scores
/// `-MATE` in check and 0 otherwise; with no completed iteration there is no plan
/// and the score is 0. Without a deadline every iteration completes. Depths beyond
/// `MAX_SEARCH_DEPTH` are searched to that depth.
#[verifier::rlimit(100)]
#[verifier::spinoff_prover]
pub fn search_with_timeout(mv: &Multiverse, max_depth: u32, max_ms: u128) -> (r: SearchResult)
    requires
        mv_wf(mv@),
    ensures
        r.best matches Some(p) ==> legal_plan(mv@, p@),
        r.depth <= depth_cap(max_depth),
        max_ms == u128::MAX ==> r.depth == depth_cap(max_depth),
        r.depth >= 1 ==> (r.best is None <==> forall|p: Seq<Move>| !legal_plan(mv@, p)),
        r.depth >= 1 && r.best is None ==> r.score == (if in_check_spec(mv@, mv@.global_to_move) {
            -MATE
        } else {
            0
        }),
        r.depth == 0 ==> r.best is None && r.score == 0,
        max_ms == u128::MAX && depth_cap(max_depth) >= 1 ==> deepened(mv@, depth_cap(max_depth), r.score, plan_of(r.best)),
{
    let top: u32 = if max_depth < MAX_SEARCH_DEPTH {
        max_depth
    } else {
        MAX_SEARCH_DEPTH
    };
    let start = instant_now();
    let deadline: Option<Instant> = if max_ms == u128::MAX {
        None
    } else {
        let ms: u64 = #[verifier::truncate] (max_ms as u64);
        instant_checked_add(&start, duration_from_millis(ms))
    };
    let tb = Tables::new();
    let mut killers: Vec<[u64; 2]> = Vec::new();
    let mut k: usize = 0;
    while k < MAX_PLY
        invariant
            k <= MAX_PLY,
            killers@.len() == k,
        decreases MAX_PLY - k,
    {
        killers.push([0, 0]);
        k = k + 1;
    }
    let mut ctx = Ctx {
        deadline,
        nodes: 0,
        tt_hits: 0,
        tt: HashMap::new(),
        aborted: false,
        killers,
        history: HashMap::new(),
    };
    let mut best_result = SearchResult { best: None, score: 0, nodes: 0, depth: 0, tt_hits: 0, elapsed_ms: 0 };
    let mut prev_score: Option<i32> = None;
    let mut depth: u32 = 1;
    while depth <= top
        invariant_except_break
            !ctx.aborted,
        invariant
            1 <= depth,
            top <= MAX_SEARCH_DEPTH,
            depth <= top + 1,
            mv_wf(mv@),
            tables_ok(&tb),
            ctx_ok(&ctx),
            best_result.best matches Some(p) ==> legal_plan(mv@, p@),
            best_result.depth <= top,
            best_result.depth >= 1 ==> (best_result.best is None <==> forall|p: Seq<Move>| !legal_plan(mv@, p)),
            best_result.depth >= 1 && best_result.best is None ==> best_result.score == (if in_check_spec(
                mv@,
                mv@.global_to_move,
            ) {
                -MATE
            } else {
                0
            }),
            best_result.depth == 0 ==> best_result.best is None && best_result.score == 0,
            max_ms == u128::MAX ==> unbounded(&ctx) && best_result.depth == depth - 1,
            max_ms == u128::MAX && depth <= top ==> forall|x: i32, y: Option<Seq<Move>>|
                #[trigger] deepen(mv@, depth, top, prev_score, ctx.tt@, x, y) ==> deepened(mv@, top, x, y),
            max_ms == u128::MAX && depth > top && top >= 1 ==> deepened(mv@, top, best_result.score, plan_of(best_result.best)),
        ensures
            max_ms == u128::MAX && top >= 1 ==> deepened(mv@, top, best_result.score, plan_of(best_result.best)),
            best_result.best matches Some(p) ==> legal_plan(mv@, p@),
            best_result.depth <= top,
            max_ms == u128::MAX ==> best_result.depth == top,
            best_result.depth >= 1 ==> (best_result.best is None <==> forall|p: Seq<Move>| !legal_plan(mv@, p)),
            best_result.depth >= 1 && best_result.best is None ==> best_result.score == (if in_check_spec(
                mv@,
                mv@.global_to_move,
            ) {
                -MATE
            } else {
                0
            }),
            best_result.depth == 0 ==> best_result.best is None && best_result.score == 0,
        decreases top + 1 - depth,
    {
        let ghost tt_iter = ctx.tt@;
        let asp = aspiration(mv, &tb, depth, &mut ctx, prev_score);
        let score = asp.0;
        let best = asp.1;
        let completed = asp.2;
        let ghost prev0 = prev_score;
        proof {
            if max_ms == u128::MAX {
                lemma_deepen_step(mv@, depth, top, prev0, tt_iter, score, plan_of(best), ctx.tt@);
            }
        }
        if completed {
            prev_score = Some(score);
            best_result = SearchResult {
                best,
                score,
                nodes: ctx.nodes,
                depth,
                tt_hits: ctx.tt_hits,
                elapsed_ms: elapsed_ms(&start),
            };
        }
        if ctx.aborted {
            break;
        }
        if past(&ctx.deadline) {
            break;
        }
        depth = depth + 1;
    }
    best_result.elapsed_ms = elapsed_ms(&start);
    best_result.nodes = ctx.nodes;
    best_result.tt_hits = ctx.tt_hits;
    best_result
}

} // verus!
