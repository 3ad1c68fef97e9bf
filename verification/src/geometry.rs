//! Direction vectors of the four axes (x, y, t, l) and the tables built from them.

use vstd::prelude::*;

verus! {

/// Component in {-1, 0, 1}.
pub open spec fn unit(v: i32) -> bool {
    v == -1 || v == 0 || v == 1
}

/// 1 for a non-zero component.
pub open spec fn nz(v: i32) -> int {
    if v != 0 {
        1
    } else {
        0
    }
}

/// Number of axes a vector moves along.
pub open spec fn axes_count(d: [i32; 4]) -> int {
    nz(d@[0]) + nz(d@[1]) + nz(d@[2]) + nz(d@[3])
}

/// A step vector with components in {-1, 0, 1} moving along between `kmin` and
/// `kmax` axes.
pub open spec fn is_dir(d: [i32; 4], kmin: int, kmax: int) -> bool {
    &&& unit(d@[0])
    &&& unit(d@[1])
    &&& unit(d@[2])
    &&& unit(d@[3])
    &&& kmin <= axes_count(d) <= kmax
}

/// A knight leap: +-2 along one axis and +-1 along a different one, 0 elsewhere.
pub open spec fn is_knight_dir(d: [i32; 4]) -> bool {
    exists|a2: int, a1: int|
        0 <= a2 < 4 && 0 <= a1 < 4 && a2 != a1 && (d@[a2] == 2 || d@[a2] == -2) && (d@[a1] == 1
            || d@[a1] == -1) && forall|i: int| 0 <= i < 4 && i != a2 && i != a1 ==> d@[i] == 0
}

/// Every entry of `v` is a direction of the range, and every such direction is in `v`.
pub open spec fn dir_table(v: Seq<[i32; 4]>, kmin: int, kmax: int) -> bool {
    &&& forall|i: int| 0 <= i < v.len() ==> is_dir(#[trigger] v[i], kmin, kmax)
    &&& forall|d: [i32; 4]| is_dir(d, kmin, kmax) ==> v.contains(d)
}

/// Every entry of `v` is a knight leap, and every knight leap is in `v`.
pub open spec fn knight_table(v: Seq<[i32; 4]>) -> bool {
    &&& forall|i: int| 0 <= i < v.len() ==> is_knight_dir(#[trigger] v[i])
    &&& forall|d: [i32; 4]| is_knight_dir(d) ==> v.contains(d)
}

/// 2^r for r in 0..=4.
pub open spec fn pw(r: int) -> int {
    if r <= 0 {
        1
    } else if r == 1 {
        2
    } else if r == 2 {
        4
    } else if r == 3 {
        8
    } else {
        16
    }
}

/// 1 for a positive component.
pub open spec fn pos(v: i32) -> int {
    if v > 0 {
        1
    } else {
        0
    }
}

/// The axis mask of a vector: bit `a` set when the vector moves along axis `a`.
pub open spec fn mask_of(d: [i32; 4]) -> int {
    nz(d@[0]) + 2 * nz(d@[1]) + 4 * nz(d@[2]) + 8 * nz(d@[3])
}

/// The sign word of a vector: bit `j` set when the `j`-th moving axis goes in the
/// positive direction.
pub open spec fn signs_of(d: [i32; 4]) -> int {
    let r1 = nz(d@[0]);
    let r2 = r1 + nz(d@[1]);
    let r3 = r2 + nz(d@[2]);
    pos(d@[0]) + pos(d@[1]) * pw(r1) + pos(d@[2]) * pw(r2) + pos(d@[3]) * pw(r3)
}

fn pow2(k: u32) -> (p: u32)
    requires
        k <= 4,
    ensures
        p == pw(k as int),
{
    if k == 0 {
        1
    } else if k == 1 {
        2
    } else if k == 2 {
        4
    } else if k == 3 {
        8
    } else {
        16
    }
}

/// Component for one moving axis: +1 when bit `j` of `signs` is set, else -1.
fn signed(signs: u32, j: u32) -> (v: i32)
    requires
        j <= 3,
    ensures
        v == (if (signs / pw(j as int) as u32) % 2 == 1 {
            1i32
        } else {
            -1i32
        }),
{
    let p = pow2(j);
    if (signs / p) % 2 == 1 {
        1
    } else {
        -1
    }
}

/// Builds the vector with axis mask `bits` (bit `a` = axis `a`) whose `j`-th moving
/// axis takes the sign of bit `j` of `signs`.
fn build_dir(bits: u32, signs: u32) -> (d: [i32; 4])
    requires
        bits < 16,
    ensures
        unit(d@[0]),
        unit(d@[1]),
        unit(d@[2]),
        unit(d@[3]),
        mask_of(d) == bits,
        forall|dd: [i32; 4]|
            mask_of(dd) == bits && signs_of(dd) == signs && unit(dd@[0]) && unit(dd@[1]) && unit(
                dd@[2],
            ) && unit(dd@[3]) ==> dd == d,
{
    let mut d: [i32; 4] = [0, 0, 0, 0];
    let mut j: u32 = 0;
    if bits % 2 == 1 {
        d[0] = signed(signs, j);
        j = j + 1;
    }
    if (bits / 2) % 2 == 1 {
        d[1] = signed(signs, j);
        j = j + 1;
    }
    if (bits / 4) % 2 == 1 {
        d[2] = signed(signs, j);
        j = j + 1;
    }
    if (bits / 8) % 2 == 1 {
        d[3] = signed(signs, j);
    }
    proof {
        assert(d@[0] == decoded(bits as int, signs as int, 0));
        assert(d@[1] == decoded(bits as int, signs as int, 1));
        assert(d@[2] == decoded(bits as int, signs as int, 2));
        assert(d@[3] == decoded(bits as int, signs as int, 3));
        assert forall|dd: [i32; 4]|
            mask_of(dd) == bits && signs_of(dd) == signs && unit(dd@[0]) && unit(dd@[1]) && unit(
                dd@[2],
            ) && unit(dd@[3]) implies dd == d by {
            lemma_decode(dd, bits as int, signs as int);
            assert(dd@ =~= d@);
        }
    }
    d
}


/// Component `a`'s value as `build_dir` decodes it.
pub open spec fn decoded(bits: int, signs: int, a: int) -> i32 {
    let b0 = bits % 2;
    let b1 = (bits / 2) % 2;
    let b2 = (bits / 4) % 2;
    let b3 = (bits / 8) % 2;
    let (on, r) = if a == 0 {
        (b0, 0)
    } else if a == 1 {
        (b1, b0)
    } else if a == 2 {
        (b2, b0 + b1)
    } else {
        (b3, b0 + b1 + b2)
    };
    if on == 1 {
        if (signs / pw(r)) % 2 == 1 {
            1i32
        } else {
            -1i32
        }
    } else {
        0i32
    }
}

/// Binary digits of a 4-bit word.
proof fn lemma_bits4(q0: int, q1: int, q2: int, q3: int)
    requires
        0 <= q0 <= 1,
        0 <= q1 <= 1,
        0 <= q2 <= 1,
        0 <= q3 <= 1,
    ensures
        ({
            let s = q0 + 2 * q1 + 4 * q2 + 8 * q3;
            &&& s % 2 == q0
            &&& (s / 2) % 2 == q1
            &&& (s / 4) % 2 == q2
            &&& (s / 8) % 2 == q3
            &&& s / 1 == s
        }),
{
}

/// A unit vector is recovered from its axis mask and sign word.
proof fn lemma_decode(dd: [i32; 4], bits: int, signs: int)
    requires
        mask_of(dd) == bits,
        signs_of(dd) == signs,
        unit(dd@[0]),
        unit(dd@[1]),
        unit(dd@[2]),
        unit(dd@[3]),
    ensures
        dd@[0] == decoded(bits, signs, 0),
        dd@[1] == decoded(bits, signs, 1),
        dd@[2] == decoded(bits, signs, 2),
        dd@[3] == decoded(bits, signs, 3),
{
    let n0 = nz(dd@[0]);
    let n1 = nz(dd@[1]);
    let n2 = nz(dd@[2]);
    let n3 = nz(dd@[3]);
    let p0 = pos(dd@[0]);
    let p1 = pos(dd@[1]);
    let p2 = pos(dd@[2]);
    let p3 = pos(dd@[3]);
    assert(bits % 2 == n0);
    assert((bits / 2) % 2 == n1);
    assert((bits / 4) % 2 == n2);
    assert((bits / 8) % 2 == n3);
    assert(0 <= signs < 16);
    if n0 == 1 {
        if n1 == 1 {
            if n2 == 1 {
                lemma_bits4(p0, p1, p2, p3);
            } else {
                lemma_bits4(p0, p1, p3, 0);
            }
        } else {
            if n2 == 1 {
                lemma_bits4(p0, p2, p3, 0);
            } else {
                lemma_bits4(p0, p3, 0, 0);
            }
        }
    } else {
        if n1 == 1 {
            if n2 == 1 {
                lemma_bits4(p1, p2, p3, 0);
            } else {
                lemma_bits4(p1, p3, 0, 0);
            }
        } else {
            if n2 == 1 {
                lemma_bits4(p2, p3, 0, 0);
            } else {
                lemma_bits4(p3, 0, 0, 0);
            }
        }
    }
}


/// Facts tying a unit vector's axis count to its mask and bounding its sign word.
proof fn lemma_mask_facts(d: [i32; 4])
    requires
        unit(d@[0]),
        unit(d@[1]),
        unit(d@[2]),
        unit(d@[3]),
    ensures
        0 <= mask_of(d) < 16,
        axes_count(d) == mask_of(d) % 2 + (mask_of(d) / 2) % 2 + (mask_of(d) / 4) % 2 + (mask_of(
            d,
        ) / 8) % 2,
        0 <= signs_of(d) < pw(axes_count(d)),
{
    lemma_bits4(nz(d@[0]), nz(d@[1]), nz(d@[2]), nz(d@[3]));
    let n0 = nz(d@[0]);
    let n1 = nz(d@[1]);
    let n2 = nz(d@[2]);
    let n3 = nz(d@[3]);
    assert(pos(d@[0]) <= n0 && pos(d@[1]) <= n1 && pos(d@[2]) <= n2 && pos(d@[3]) <= n3);
    if n0 + n1 + n2 == 0 {
    } else if n0 + n1 + n2 == 1 {
    } else if n0 + n1 + n2 == 2 {
    } else {
    }
}

/// All vectors with components in {-1, 0, 1} moving along `min_axes ..= max_axes`
/// axes, ordered by axis mask, then by sign word.
pub(crate) fn directions(min_axes: u32, max_axes: u32) -> (out: Vec<[i32; 4]>)
    requires
        1 <= min_axes <= max_axes <= 4,
    ensures
        dir_table(out@, min_axes as int, max_axes as int),
{
    let mut out: Vec<[i32; 4]> = Vec::new();
    let mut bits: u32 = 0;
    while bits < 16
        invariant
            bits <= 16,
            1 <= min_axes <= max_axes <= 4,
            forall|i: int|
                0 <= i < out@.len() ==> is_dir(#[trigger] out@[i], min_axes as int, max_axes as int),
            forall|d: [i32; 4]|
                is_dir(d, min_axes as int, max_axes as int) && mask_of(d) < bits ==> out@.contains(
                    d,
                ),
        decreases 16 - bits,
    {
        let k = bits % 2 + (bits / 2) % 2 + (bits / 4) % 2 + (bits / 8) % 2;
        if k >= min_axes && k <= max_axes {
            let n = pow2(k);
            let mut sign: u32 = 0;
            while sign < n
                invariant
                    bits < 16,
                    sign <= n,
                    n == pw(k as int),
                    k == bits % 2 + (bits / 2) % 2 + (bits / 4) % 2 + (bits / 8) % 2,
                    min_axes <= k <= max_axes,
                    1 <= min_axes <= max_axes <= 4,
                    forall|i: int|
                        0 <= i < out@.len() ==> is_dir(
                            #[trigger] out@[i],
                            min_axes as int,
                            max_axes as int,
                        ),
                    forall|d: [i32; 4]|
                        is_dir(d, min_axes as int, max_axes as int) && (mask_of(d) < bits || (
                        mask_of(d) == bits && signs_of(d) < sign)) ==> out@.contains(d),
                decreases n - sign,
            {
                let d = build_dir(bits, sign);
                proof {
                    lemma_mask_facts(d);
                }
                let ghost before = out@;
                out.push(d);
                proof {
                    assert(out@[out@.len() - 1] == d);
                    assert forall|dd: [i32; 4]|
                        is_dir(dd, min_axes as int, max_axes as int) && (mask_of(dd) < bits || (
                        mask_of(dd) == bits && signs_of(dd) < sign + 1)) implies out@.contains(
                        dd,
                    ) by {
                        if mask_of(dd) == bits && signs_of(dd) == sign {
                            assert(dd == d);
                        } else {
                            let j = choose|j: int| 0 <= j < before.len() && before[j] == dd;
                            assert(out@[j] == dd);
                        }
                    }
                }
                sign = sign + 1;
            }
            proof {
                assert forall|d: [i32; 4]|
                    is_dir(d, min_axes as int, max_axes as int) && mask_of(d) < bits
                        + 1 implies out@.contains(d) by {
                    lemma_mask_facts(d);
                }
            }
        } else {
            proof {
                assert forall|d: [i32; 4]|
                    is_dir(d, min_axes as int, max_axes as int) && mask_of(d) < bits
                        + 1 implies out@.contains(d) by {
                    lemma_mask_facts(d);
                }
            }
        }
        bits = bits + 1;
    }
    proof {
        assert forall|d: [i32; 4]| is_dir(d, min_axes as int, max_axes as int) implies out@.contains(
            d,
        ) by {
            lemma_mask_facts(d);
        }
    }
    out
}

/// Component of magnitude 2.
pub open spec fn mag2(v: i32) -> bool {
    v == 2 || v == -2
}

/// Component of magnitude 1.
pub open spec fn mag1(v: i32) -> bool {
    v == 1 || v == -1
}

/// The first axis with a component of magnitude 2.
pub open spec fn long_axis(d: [i32; 4]) -> int {
    if mag2(d@[0]) {
        0
    } else if mag2(d@[1]) {
        1
    } else if mag2(d@[2]) {
        2
    } else {
        3
    }
}

/// The first axis with a component of magnitude 1.
pub open spec fn short_axis(d: [i32; 4]) -> int {
    if mag1(d@[0]) {
        0
    } else if mag1(d@[1]) {
        1
    } else if mag1(d@[2]) {
        2
    } else {
        3
    }
}

/// Position of a knight leap in generation order.
pub open spec fn kcode(d: [i32; 4]) -> int {
    ((long_axis(d) * 4 + short_axis(d)) * 2 + pos(d@[long_axis(d)])) * 2 + pos(d@[short_axis(d)])
}

pub(crate) proof fn lemma_knight_axes(d: [i32; 4])
    requires
        is_knight_dir(d),
    ensures
        mag2(d@[long_axis(d)]),
        mag1(d@[short_axis(d)]),
        long_axis(d) != short_axis(d),
        0 <= long_axis(d) < 4,
        0 <= short_axis(d) < 4,
        forall|i: int| 0 <= i < 4 && i != long_axis(d) && i != short_axis(d) ==> d@[i] == 0,
{
    let (a2, a1) = choose|a2: int, a1: int|
        0 <= a2 < 4 && 0 <= a1 < 4 && a2 != a1 && (d@[a2] == 2 || d@[a2] == -2) && (d@[a1] == 1
            || d@[a1] == -1) && forall|i: int| 0 <= i < 4 && i != a2 && i != a1 ==> d@[i] == 0;
    assert(long_axis(d) == a2);
    assert(short_axis(d) == a1);
}

/// All knight leaps, ordered by long axis, then short axis, then the signs.
pub(crate) fn knight_dirs() -> (out: Vec<[i32; 4]>)
    ensures
        knight_table(out@),
{
    let mut out: Vec<[i32; 4]> = Vec::new();
    let signs: [i32; 2] = [-1, 1];
    let mut a2: usize = 0;
    while a2 < 4
        invariant
            a2 <= 4,
            signs@ == seq![-1i32, 1i32],
            forall|i: int| 0 <= i < out@.len() ==> is_knight_dir(#[trigger] out@[i]),
            forall|dd: [i32; 4]| is_knight_dir(dd) && kcode(dd) < a2 * 16 ==> out@.contains(dd),
        decreases 4 - a2,
    {
        let mut a1: usize = 0;
        while a1 < 4
            invariant
                a2 < 4,
                a1 <= 4,
                signs@ == seq![-1i32, 1i32],
                forall|i: int| 0 <= i < out@.len() ==> is_knight_dir(#[trigger] out@[i]),
                forall|dd: [i32; 4]|
                    is_knight_dir(dd) && kcode(dd) < (a2 * 4 + a1) * 4 ==> out@.contains(dd),
            decreases 4 - a1,
        {
            if a1 != a2 {
                let mut i2: usize = 0;
                while i2 < 2
                    invariant
                        a2 < 4,
                        a1 < 4,
                        a1 != a2,
                        i2 <= 2,
                        signs@ == seq![-1i32, 1i32],
                        forall|i: int| 0 <= i < out@.len() ==> is_knight_dir(#[trigger] out@[i]),
                        forall|dd: [i32; 4]|
                            is_knight_dir(dd) && kcode(dd) < ((a2 * 4 + a1) * 2 + i2) * 2
                                ==> out@.contains(dd),
                    decreases 2 - i2,
                {
                    let s2 = signs[i2];
                    let mut i1: usize = 0;
                    while i1 < 2
                        invariant
                            a2 < 4,
                            a1 < 4,
                            a1 != a2,
                            i2 < 2,
                            i1 <= 2,
                            signs@ == seq![-1i32, 1i32],
                            s2 == signs@[i2 as int],
                            forall|i: int|
                                0 <= i < out@.len() ==> is_knight_dir(#[trigger] out@[i]),
                            forall|dd: [i32; 4]|
                                is_knight_dir(dd) && kcode(dd) < ((a2 * 4 + a1) * 2 + i2) * 2 + i1
                                    ==> out@.contains(dd),
                        decreases 2 - i1,
                    {
                        let s1 = signs[i1];
                        let mut d: [i32; 4] = [0, 0, 0, 0];
                        d[a2] = 2 * s2;
                        d[a1] = s1;
                        let ghost before = out@;
                        out.push(d);
                        proof {
                            assert(is_knight_dir(d)) by {
                                assert(forall|i: int|
                                    0 <= i < 4 && i != a2 && i != a1 ==> d@[i] == 0);
                                assert(0 <= a2 < 4 && 0 <= a1 < 4 && a2 != a1 && (d@[a2 as int]
                                    == 2 || d@[a2 as int] == -2) && (d@[a1 as int] == 1
                                    || d@[a1 as int] == -1));
                            }
                            lemma_knight_axes(d);
                            assert(kcode(d) == ((a2 * 4 + a1) * 2 + i2) * 2 + i1);
                            assert(out@[out@.len() - 1] == d);
                            assert forall|dd: [i32; 4]|
                                is_knight_dir(dd) && kcode(dd) < ((a2 * 4 + a1) * 2 + i2) * 2 + i1
                                    + 1 implies out@.contains(dd) by {
                                lemma_knight_axes(dd);
                                if kcode(dd) == ((a2 * 4 + a1) * 2 + i2) * 2 + i1 {
                                    let la = long_axis(dd);
                                    let sa = short_axis(dd);
                                    let p2 = pos(dd@[la]);
                                    let p1 = pos(dd@[sa]);
                                    assert(((la * 4 + sa) * 2 + p2) * 2 + p1 == ((a2 * 4 + a1) * 2
                                        + i2) * 2 + i1);
                                    assert(la == a2 && sa == a1 && p2 == i2 && p1 == i1);
                                    assert(dd@[a2 as int] == d@[a2 as int]);
                                    assert(dd@[a1 as int] == d@[a1 as int]);
                                    assert(dd@ =~= d@);
                                    assert(dd == d);
                                    assert(out@[out@.len() - 1] == dd);
                                } else {
                                    assert(before.contains(dd));
                                    let j = choose|j: int| 0 <= j < before.len() && before[j] == dd;
                                    assert(out@[j] == dd);
                                }
                            }
                        }
                        i1 = i1 + 1;
                    }
                    i2 = i2 + 1;
                }
            } else {
                proof {
                    assert forall|dd: [i32; 4]|
                        is_knight_dir(dd) && kcode(dd) < (a2 * 4 + a1 + 1) * 4 implies out@.contains(
                        dd,
                    ) by {
                        lemma_knight_axes(dd);
                    }
                }
            }
            a1 = a1 + 1;
        }
        a2 = a2 + 1;
    }
    proof {
        assert forall|d: [i32; 4]| is_knight_dir(d) implies out@.contains(d) by {
            lemma_knight_axes(d);
        }
    }
    out
}


/// The direction tables, built once and handed down to move generation and attack
/// detection.
pub(crate) struct Tables {
    pub k1: Vec<[i32; 4]>,
    pub k2: Vec<[i32; 4]>,
    pub k3: Vec<[i32; 4]>,
    pub k4: Vec<[i32; 4]>,
    pub all: Vec<[i32; 4]>,
    pub knight: Vec<[i32; 4]>,
}

/// Each table holds exactly its directions.
pub(crate) open spec fn tables_ok(tb: &Tables) -> bool {
    &&& dir_table(tb.k1@, 1, 1)
    &&& dir_table(tb.k2@, 2, 2)
    &&& dir_table(tb.k3@, 3, 3)
    &&& dir_table(tb.k4@, 4, 4)
    &&& dir_table(tb.all@, 1, 4)
    &&& knight_table(tb.knight@)
}

impl Tables {
    pub(crate) fn new() -> (tb: Tables)
        ensures
            tables_ok(&tb),
    {
        Tables {
            k1: directions(1, 1),
            k2: directions(2, 2),
            k3: directions(3, 3),
            k4: directions(4, 4),
            all: directions(1, 4),
            knight: knight_dirs(),
        }
    }

    /// The table for `k_min ..= k_max` axes: a single count, or 1 to 4.
    pub(crate) fn dirs(&self, k_min: u32, k_max: u32) -> (r: &Vec<[i32; 4]>)
        requires
            tables_ok(self),
            (k_min == k_max && 1 <= k_min <= 4) || (k_min == 1 && k_max == 4),
        ensures
            dir_table(r@, k_min as int, k_max as int),
    {
        if k_min == k_max {
            if k_min == 1 {
                &self.k1
            } else if k_min == 2 {
                &self.k2
            } else if k_min == 3 {
                &self.k3
            } else {
                &self.k4
            }
        } else {
            &self.all
        }
    }
}

} // verus!
