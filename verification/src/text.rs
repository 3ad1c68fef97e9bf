//! Small text helpers: building strings from characters and reading them back.

use vstd::prelude::*;

verus! {

/// Builds a `String` from a sequence of characters (std's `FromIterator<char>`
/// for `String`). The contract claims that the string holds exactly those
/// characters, in order.
#[verifier::external_body]
pub(crate) fn string_from_chars(v: &Vec<char>) -> (s: String)
    ensures
        s@ == v@,
{
    v.iter().collect()
}

/// The characters of a string slice, in order.
pub(crate) fn chars_of(s: &str) -> (v: Vec<char>)
    ensures
        v@ == s@,
{
    let mut v: Vec<char> = Vec::new();
    for c in it: s.chars()
        invariant
            v@ == it.seq().take(it.index() as int),
    {
        v.push(c);
    }
    v
}

/// The ASCII digit for `d` (0..=9).
pub open spec fn digit_char(d: int) -> char {
    if d == 0 {
        '0'
    } else if d == 1 {
        '1'
    } else if d == 2 {
        '2'
    } else if d == 3 {
        '3'
    } else if d == 4 {
        '4'
    } else if d == 5 {
        '5'
    } else if d == 6 {
        '6'
    } else if d == 7 {
        '7'
    } else if d == 8 {
        '8'
    } else {
        '9'
    }
}

/// Decimal digits of a natural number, most significant first, without leading zeros
/// (`0` is the single digit "0").
pub open spec fn nat_digits(n: nat) -> Seq<char>
    decreases n,
{
    if n < 10 {
        seq![digit_char(n as int)]
    } else {
        nat_digits(n / 10).push(digit_char((n % 10) as int))
    }
}

/// Decimal text of an integer, with a leading '-' for negative values.
pub open spec fn int_text(i: int) -> Seq<char> {
    if i < 0 {
        seq!['-'] + nat_digits((-i) as nat)
    } else {
        nat_digits(i as nat)
    }
}

pub(crate) fn push_digit(out: &mut Vec<char>, d: u64)
    requires
        d < 10,
    ensures
        final(out)@ == old(out)@.push(digit_char(d as int)),
{
    let c = if d == 0 {
        '0'
    } else if d == 1 {
        '1'
    } else if d == 2 {
        '2'
    } else if d == 3 {
        '3'
    } else if d == 4 {
        '4'
    } else if d == 5 {
        '5'
    } else if d == 6 {
        '6'
    } else if d == 7 {
        '7'
    } else if d == 8 {
        '8'
    } else {
        '9'
    };
    out.push(c);
}

/// Appends the decimal digits of `n`.
pub(crate) fn push_nat(out: &mut Vec<char>, n: u64)
    ensures
        final(out)@ == old(out)@ + nat_digits(n as nat),
    decreases n,
{
    if n < 10 {
        push_digit(out, n);
    } else {
        push_nat(out, n / 10);
        push_digit(out, n % 10);
        proof {
            assert(old(out)@ + nat_digits(n as nat) =~= old(out)@ + nat_digits((n / 10) as nat)
                + seq![digit_char((n % 10) as int)]);
        }
    }
}

/// Appends the decimal text of `i`, as `i32`'s `Display` writes it.
pub(crate) fn push_int(out: &mut Vec<char>, i: i64)
    ensures
        final(out)@ == old(out)@ + int_text(i as int),
{
    if i < 0 {
        out.push('-');
        let mag: u64 = if i == i64::MIN {
            9223372036854775808u64
        } else {
            (-i) as u64
        };
        push_nat(out, mag);
        proof {
            assert(old(out)@ + int_text(i as int) =~= old(out)@.push('-') + nat_digits(
                mag as nat,
            ));
        }
    } else {
        push_nat(out, i as u64);
    }
}

/// Appends every character of `s`.
pub(crate) fn push_str(out: &mut Vec<char>, s: &str)
    ensures
        final(out)@ == old(out)@ + s@,
{
    let cs = chars_of(s);
    let mut i: usize = 0;
    while i < cs.len()
        invariant
            i <= cs@.len(),
            cs@ == s@,
            out@ == old(out)@ + cs@.subrange(0, i as int),
        decreases cs@.len() - i,
    {
        out.push(cs[i]);
        i = i + 1;
        proof {
            assert(cs@.subrange(0, i as int) =~= cs@.subrange(0, (i - 1) as int).push(
                cs@[i - 1],
            ));
        }
    }
    proof {
        assert(cs@.subrange(0, cs@.len() as int) =~= cs@);
    }
}


/// Unicode White_Space, the characters that `char::is_whitespace` accepts.
pub open spec fn is_ws(c: char) -> bool {
    let u = c as u32;
    ||| u == 0x20
    ||| (0x09 <= u && u <= 0x0D)
    ||| u == 0x85
    ||| u == 0xA0
    ||| u == 0x1680
    ||| (0x2000 <= u && u <= 0x200A)
    ||| u == 0x2028
    ||| u == 0x2029
    ||| u == 0x202F
    ||| u == 0x205F
    ||| u == 0x3000
}

pub(crate) fn is_whitespace(c: char) -> (r: bool)
    ensures
        r == is_ws(c),
{
    let u = c as u32;
    u == 0x20 || (0x09 <= u && u <= 0x0D) || u == 0x85 || u == 0xA0 || u == 0x1680 || (0x2000 <= u
        && u <= 0x200A) || u == 0x2028 || u == 0x2029 || u == 0x202F || u == 0x205F || u == 0x3000
}

/// `s` without leading whitespace.
pub open spec fn trim_start(s: Seq<char>) -> Seq<char>
    decreases s.len(),
{
    if s.len() > 0 && is_ws(s[0]) {
        trim_start(s.drop_first())
    } else {
        s
    }
}

/// `s` without trailing whitespace.
pub open spec fn trim_end(s: Seq<char>) -> Seq<char>
    decreases s.len(),
{
    if s.len() > 0 && is_ws(s.last()) {
        trim_end(s.drop_last())
    } else {
        s
    }
}

/// `s` without leading and trailing whitespace (`str::trim`).
pub open spec fn trim(s: Seq<char>) -> Seq<char> {
    trim_end(trim_start(s))
}

proof fn lemma_trim_start_skip(s: Seq<char>, i: int)
    requires
        0 <= i <= s.len(),
        forall|k: int| 0 <= k < i ==> is_ws(s[k]),
    ensures
        trim_start(s) == trim_start(s.skip(i)),
    decreases i,
{
    if i > 0 {
        assert(s.skip(1) =~= s.drop_first());
        assert(s.drop_first().skip(i - 1) =~= s.skip(i));
        lemma_trim_start_skip(s.drop_first(), i - 1);
    } else {
        assert(s.skip(0) =~= s);
    }
}

proof fn lemma_trim_end_take(s: Seq<char>, j: int)
    requires
        0 <= j <= s.len(),
        forall|k: int| j <= k < s.len() ==> is_ws(s[k]),
    ensures
        trim_end(s) == trim_end(s.take(j)),
    decreases s.len() - j,
{
    if j < s.len() {
        assert(s.drop_last().take(j) =~= s.take(j));
        lemma_trim_end_take(s.drop_last(), j);
    } else {
        assert(s.take(j) =~= s);
    }
}

/// The characters of `s` without leading and trailing whitespace.
pub(crate) fn trim_chars(s: &Vec<char>) -> (r: Vec<char>)
    ensures
        r@ == trim(s@),
{
    let n = s.len();
    let mut i: usize = 0;
    while i < n && is_whitespace(s[i])
        invariant
            i <= n,
            n == s@.len(),
            forall|k: int| 0 <= k < i ==> is_ws(s@[k]),
        decreases n - i,
    {
        i = i + 1;
    }
    proof {
        lemma_trim_start_skip(s@, i as int);
    }
    let mut j: usize = n;
    while j > i && is_whitespace(s[j - 1])
        invariant
            i <= j <= n,
            n == s@.len(),
            forall|k: int| j <= k < n ==> is_ws(s@[k]),
        decreases j,
    {
        j = j - 1;
    }
    let ghost u = s@.skip(i as int);
    proof {
        assert(i == n || !is_ws(s@[i as int]));
        assert(trim_start(u) == u) by {
            if u.len() > 0 {
                assert(u[0] == s@[i as int]);
            }
        }
        let jj = j - i;
        assert forall|k: int| jj <= k < u.len() implies is_ws(u[k]) by {
            assert(u[k] == s@[k + i]);
        }
        lemma_trim_end_take(u, jj);
        assert(trim_end(u.take(jj)) == u.take(jj)) by {
            if jj > 0 {
                assert(u.take(jj).last() == s@[j - 1]);
            }
        }
    }
    let mut r: Vec<char> = Vec::new();
    let mut k: usize = i;
    while k < j
        invariant
            i <= k <= j <= n,
            n == s@.len(),
            r@ == s@.subrange(i as int, k as int),
        decreases j - k,
    {
        r.push(s[k]);
        k = k + 1;
        proof {
            assert(s@.subrange(i as int, k as int) =~= s@.subrange(i as int, k - 1).push(s@[k - 1]));
        }
    }
    proof {
        assert(r@ =~= u.take(j - i));
    }
    r
}

/// Length of the run of non-whitespace characters that starts `s`.
pub open spec fn word_len(s: Seq<char>) -> int
    decreases s.len(),
{
    if s.len() == 0 || is_ws(s[0]) {
        0
    } else {
        1 + word_len(s.drop_first())
    }
}

proof fn lemma_word_len_bounds(s: Seq<char>)
    ensures
        0 <= word_len(s) <= s.len(),
    decreases s.len(),
{
    if s.len() > 0 && !is_ws(s[0]) {
        lemma_word_len_bounds(s.drop_first());
    }
}

/// The whitespace-separated words of `s` (`str::split_whitespace`).
pub open spec fn words(s: Seq<char>) -> Seq<Seq<char>>
    decreases s.len(),
{
    if s.len() == 0 {
        seq![]
    } else if is_ws(s[0]) {
        words(s.drop_first())
    } else {
        let k = word_len(s);
        if 0 < k <= s.len() {
            seq![s.take(k)] + words(s.skip(k))
        } else {
            seq![]
        }
    }
}

/// A non-empty word `w` followed by whitespace, or by nothing, ends there.
proof fn lemma_word_len_prefix(w: Seq<char>, r: Seq<char>)
    requires
        forall|k: int| 0 <= k < w.len() ==> !is_ws(w[k]),
        r.len() == 0 || is_ws(r[0]),
    ensures
        word_len(w + r) == w.len(),
    decreases w.len(),
{
    if w.len() > 0 {
        assert((w + r).drop_first() =~= w.drop_first() + r);
        lemma_word_len_prefix(w.drop_first(), r);
    } else {
        assert(w + r =~= r);
    }
}

proof fn lemma_words_word_then_ws(w: Seq<char>, r: Seq<char>)
    requires
        w.len() > 0,
        forall|k: int| 0 <= k < w.len() ==> !is_ws(w[k]),
        r.len() == 0 || is_ws(r[0]),
    ensures
        words(w + r) == seq![w] + words(r),
{
    lemma_word_len_prefix(w, r);
    assert((w + r).take(w.len() as int) =~= w);
    assert((w + r).skip(w.len() as int) =~= r);
}

/// The words of a string slice.
pub(crate) fn split_words(s: &Vec<char>) -> (r: Vec<Vec<char>>)
    ensures
        r@.len() == words(s@).len(),
        forall|i: int| 0 <= i < r@.len() ==> (#[trigger] r@[i])@ == words(s@)[i],
{
    let mut done: Vec<Vec<char>> = Vec::new();
    let ghost mut dv: Seq<Seq<char>> = seq![];
    let mut cur: Vec<char> = Vec::new();
    let mut i: usize = 0;
    proof {
        assert(s@.skip(0) =~= s@);
        assert(cur@ + s@.skip(0) =~= s@);
    }
    while i < s.len()
        invariant
            i <= s@.len(),
            dv.len() == done@.len(),
            forall|k: int| 0 <= k < done@.len() ==> (#[trigger] done@[k])@ == dv[k],
            forall|k: int| 0 <= k < cur@.len() ==> !is_ws(cur@[k]),
            words(s@) == dv + words(cur@ + s@.skip(i as int)),
        decreases s@.len() - i,
    {
        let c = s[i];
        let ghost rest = s@.skip(i as int);
        proof {
            assert(rest[0] == c);
            assert(s@.skip(i + 1) =~= rest.drop_first());
        }
        if is_whitespace(c) {
            if cur.len() > 0 {
                let ghost dv0 = dv;
                proof {
                    lemma_words_word_then_ws(cur@, rest);
                    assert(words(rest) == words(rest.drop_first()));
                    assert(words(cur@ + rest) == seq![cur@] + words(s@.skip(i + 1)));
                    assert(dv0 + (seq![cur@] + words(s@.skip(i + 1))) =~= dv0.push(cur@) + words(s@.skip(i + 1)));
                }
                let w = cur;
                proof {
                    dv = dv.push(w@);
                }
                done.push(w);
                cur = Vec::new();
                proof {
                    assert(cur@ + s@.skip(i + 1) =~= s@.skip(i + 1));
                    assert(words(s@) == dv + words(cur@ + s@.skip(i + 1)));
                }
            } else {
                proof {
                    assert(cur@ + rest =~= rest);
                    assert(words(rest) == words(rest.drop_first()));
                    assert(cur@ + s@.skip(i + 1) =~= s@.skip(i + 1));
                }
            }
        } else {
            let ghost cur0 = cur@;
            cur.push(c);
            proof {
                assert(cur@ + s@.skip(i + 1) =~= cur0 + rest);
            }
        }
        i = i + 1;
    }
    proof {
        assert(s@.skip(s@.len() as int) =~= Seq::<char>::empty());
        assert(cur@ + s@.skip(i as int) =~= cur@);
    }
    if cur.len() > 0 {
        proof {
            lemma_words_word_then_ws(cur@, Seq::<char>::empty());
            assert(cur@ + Seq::<char>::empty() =~= cur@);
            dv = dv.push(cur@);
        }
        done.push(cur);
        proof {
            assert(words(s@) =~= dv);
        }
    } else {
        proof {
            assert(words(s@) =~= dv);
        }
    }
    done
}

/// The first position of `c` in `s`.
pub open spec fn find_char(s: Seq<char>, c: char) -> Option<int>
    decreases s.len(),
{
    if s.len() == 0 {
        None
    } else if s[0] == c {
        Some(0)
    } else {
        match find_char(s.drop_first(), c) {
            Some(k) => Some(k + 1),
            None => None,
        }
    }
}

pub(crate) proof fn lemma_find_char(s: Seq<char>, c: char)
    ensures
        find_char(s, c) matches Some(k) ==> 0 <= k < s.len() && s[k] == c && forall|j: int|
            0 <= j < k ==> s[j] != c,
        find_char(s, c) is None ==> forall|j: int| 0 <= j < s.len() ==> s[j] != c,
    decreases s.len(),
{
    if s.len() > 0 && s[0] != c {
        lemma_find_char(s.drop_first(), c);
        if let Some(k) = find_char(s.drop_first(), c) {
            assert forall|j: int| 0 <= j < k + 1 implies s[j] != c by {
                if j > 0 {
                    assert(s[j] == s.drop_first()[j - 1]);
                }
            }
        } else {
            assert forall|j: int| 0 <= j < s.len() implies s[j] != c by {
                if j > 0 {
                    assert(s[j] == s.drop_first()[j - 1]);
                }
            }
        }
    }
}

/// The first position of `c` in `s`.
pub(crate) fn find_in(s: &Vec<char>, c: char) -> (r: Option<usize>)
    ensures
        r matches Some(k) ==> find_char(s@, c) == Some(k as int),
        r is None ==> find_char(s@, c) is None,
{
    let mut i: usize = 0;
    while i < s.len()
        invariant
            i <= s@.len(),
            forall|j: int| 0 <= j < i ==> s@[j] != c,
        decreases s@.len() - i,
    {
        if s[i] == c {
            proof {
                lemma_find_char(s@, c);
                if let Some(k) = find_char(s@, c) {
                    if k < i {
                    } else if k > i {
                    }
                }
            }
            return Some(i);
        }
        i = i + 1;
    }
    proof {
        lemma_find_char(s@, c);
    }
    None
}

/// The characters `s[a..b]`.
pub(crate) fn slice_chars(s: &Vec<char>, a: usize, b: usize) -> (r: Vec<char>)
    requires
        a <= b <= s@.len(),
    ensures
        r@ == s@.subrange(a as int, b as int),
{
    let mut r: Vec<char> = Vec::new();
    let mut k: usize = a;
    while k < b
        invariant
            a <= k <= b <= s@.len(),
            r@ == s@.subrange(a as int, k as int),
        decreases b - k,
    {
        r.push(s[k]);
        k = k + 1;
        proof {
            assert(s@.subrange(a as int, k as int) =~= s@.subrange(a as int, k - 1).push(s@[k - 1]));
        }
    }
    r
}

/// `s` without the character `c` anywhere.
pub open spec fn without_char(s: Seq<char>, c: char) -> Seq<char>
    decreases s.len(),
{
    if s.len() == 0 {
        seq![]
    } else if s.last() == c {
        without_char(s.drop_last(), c)
    } else {
        without_char(s.drop_last(), c).push(s.last())
    }
}

pub(crate) fn remove_char(s: &Vec<char>, c: char) -> (r: Vec<char>)
    ensures
        r@ == without_char(s@, c),
{
    let mut r: Vec<char> = Vec::new();
    let mut i: usize = 0;
    while i < s.len()
        invariant
            i <= s@.len(),
            r@ == without_char(s@.take(i as int), c),
        decreases s@.len() - i,
    {
        proof {
            assert(s@.take(i + 1).drop_last() =~= s@.take(i as int));
        }
        if s[i] != c {
            r.push(s[i]);
        }
        i = i + 1;
    }
    proof {
        assert(s@.take(s@.len() as int) =~= s@);
    }
    r
}

/// The value of a non-empty run of decimal digits.
pub open spec fn digits_value(s: Seq<char>) -> int
    decreases s.len(),
{
    if s.len() == 0 {
        0
    } else {
        10 * digits_value(s.drop_last()) + (s.last() as u32 - '0' as u32)
    }
}

pub open spec fn is_digit(c: char) -> bool {
    '0' as u32 <= c as u32 <= '9' as u32
}

/// `s` without its sign, if it has one.
pub open spec fn unsigned_part(s: Seq<char>) -> Seq<char> {
    if s.len() > 0 && (s[0] == '-' || s[0] == '+') {
        s.drop_first()
    } else {
        s
    }
}

/// Every character of `s` is a decimal digit.
pub open spec fn all_digits(s: Seq<char>) -> bool {
    forall|i: int| 0 <= i < s.len() ==> is_digit(#[trigger] s[i])
}

/// The `i32` that `s` spells (`i32::from_str`): an optional `+` or `-` and at least
/// one decimal digit, within range.
pub open spec fn parse_i32_text(s: Seq<char>) -> Option<i32> {
    let neg = s.len() > 0 && s[0] == '-';
    let ds = unsigned_part(s);
    if ds.len() == 0 || !all_digits(ds) {
        None
    } else {
        let v = if neg {
            -digits_value(ds)
        } else {
            digits_value(ds)
        };
        if i32::MIN <= v <= i32::MAX {
            Some(v as i32)
        } else {
            None
        }
    }
}

proof fn lemma_digits_nonneg_mono(s: Seq<char>, k: int)
    requires
        0 <= k <= s.len(),
        forall|i: int| 0 <= i < s.len() ==> is_digit(#[trigger] s[i]),
    ensures
        0 <= digits_value(s.take(k)) <= digits_value(s),
    decreases s.len(),
{
    if k < s.len() {
        assert(s.drop_last().take(k) =~= s.take(k));
        lemma_digits_nonneg_mono(s.drop_last(), k);
    } else {
        assert(s.take(k) =~= s);
        if s.len() > 0 {
            lemma_digits_nonneg_mono(s.drop_last(), s.len() - 1);
            assert(s.drop_last().take(s.len() - 1) =~= s.drop_last());
        }
    }
}

/// Parses an `i32` as `str::parse::<i32>` does, `None` on any error.
pub(crate) fn parse_i32(s: &Vec<char>) -> (r: Option<i32>)
    ensures
        r == parse_i32_text(s@),
{
    let n = s.len();
    if n == 0 {
        return None;
    }
    let neg = s[0] == '-';
    let start: usize = if s[0] == '-' || s[0] == '+' {
        1
    } else {
        0
    };
    let ghost ds = unsigned_part(s@);
    proof {
        assert(ds =~= s@.skip(start as int));
    }
    if start >= n {
        return None;
    }
    let mut acc: i64 = 0;
    let mut i: usize = start;
    let mut too_big = false;
    while i < n
        invariant
            start <= i <= n,
            n == s@.len(),
            start < n,
            ds == s@.skip(start as int),
            ds == unsigned_part(s@),
            forall|k: int| start <= k < i ==> is_digit(#[trigger] s@[k]),
            !too_big ==> acc == digits_value(s@.subrange(start as int, i as int)),
            !too_big ==> 0 <= acc <= 2147483648,
            too_big ==> digits_value(s@.subrange(start as int, i as int)) > 2147483648 || exists|k: int|
                start <= k < i && !is_digit(#[trigger] s@[k]),
        decreases n - i,
    {
        let c = s[i];
        let d = c as u32;
        proof {
            assert(d == s@[i as int] as u32);
        }
        if d < '0' as u32 || d > '9' as u32 {
            proof {
                assert(!is_digit(s@[i as int]));
                assert(ds[i - start] == s@[i as int]);
                assert(!is_digit(ds[i - start]));
                assert(!all_digits(ds));
            }
            return None;
        }
        proof {
            assert(s@.subrange(start as int, i + 1).drop_last() =~= s@.subrange(start as int, i as int));
        }
        if !too_big {
            let v = acc * 10 + (d - '0' as u32) as i64;
            if v > 2147483648 {
                too_big = true;
            } else {
                acc = v;
            }
        } else {
            proof {
                assert(forall|k: int| start <= k < i + 1 ==> is_digit(#[trigger] s@[k]));
                let sub = s@.subrange(start as int, i + 1);
                assert(forall|k: int| 0 <= k < sub.len() ==> is_digit(#[trigger] sub[k])) by {
                    assert forall|k: int| 0 <= k < sub.len() implies is_digit(#[trigger] sub[k]) by {
                        assert(sub[k] == s@[k + start]);
                    }
                }
                lemma_digits_nonneg_mono(sub, i - start);
                assert(sub.take(i - start) =~= s@.subrange(start as int, i as int));
            }
        }
        i = i + 1;
    }
    proof {
        assert(s@.subrange(start as int, n as int) =~= ds);
        assert(all_digits(ds)) by {
            assert forall|k: int| 0 <= k < ds.len() implies is_digit(#[trigger] ds[k]) by {
                assert(ds[k] == s@[k + start]);
            }
        }
    }
    if too_big {
        return None;
    }
    let v: i64 = if neg {
        -acc
    } else {
        acc
    };
    if v < i32::MIN as i64 || v > i32::MAX as i64 {
        None
    } else {
        Some(v as i32)
    }
}

/// The pieces of `s` between occurrences of `c`, empty pieces included (`str::split`).
pub open spec fn split_on(s: Seq<char>, c: char) -> Seq<Seq<char>>
    decreases s.len(),
{
    match find_char(s, c) {
        None => seq![s],
        Some(k) => if 0 <= k < s.len() {
            seq![s.take(k)] + split_on(s.skip(k + 1), c)
        } else {
            seq![s]
        },
    }
}

pub(crate) proof fn lemma_find_after_plain(w: Seq<char>, r: Seq<char>, c: char)
    requires
        forall|k: int| 0 <= k < w.len() ==> w[k] != c,
    ensures
        r.len() > 0 && r[0] == c ==> find_char(w + r, c) == Some(w.len() as int),
        r.len() == 0 ==> find_char(w + r, c) is None,
    decreases w.len(),
{
    if w.len() > 0 {
        assert((w + r).drop_first() =~= w.drop_first() + r);
        lemma_find_after_plain(w.drop_first(), r, c);
    } else {
        assert(w + r =~= r);
    }
}

/// The pieces of `s` between occurrences of `c` (`str::split`).
pub(crate) fn split_chars(s: &Vec<char>, c: char) -> (r: Vec<Vec<char>>)
    ensures
        r@.len() == split_on(s@, c).len(),
        forall|i: int| 0 <= i < r@.len() ==> (#[trigger] r@[i])@ == split_on(s@, c)[i],
{
    let mut done: Vec<Vec<char>> = Vec::new();
    let ghost mut dv: Seq<Seq<char>> = seq![];
    let mut cur: Vec<char> = Vec::new();
    let mut i: usize = 0;
    proof {
        assert(cur@ + s@.skip(0) =~= s@);
    }
    while i < s.len()
        invariant
            i <= s@.len(),
            dv.len() == done@.len(),
            forall|k: int| 0 <= k < done@.len() ==> (#[trigger] done@[k])@ == dv[k],
            forall|k: int| 0 <= k < cur@.len() ==> cur@[k] != c,
            split_on(s@, c) == dv + split_on(cur@ + s@.skip(i as int), c),
        decreases s@.len() - i,
    {
        let x = s[i];
        let ghost rest = s@.skip(i as int);
        proof {
            assert(rest[0] == x);
            assert(s@.skip(i + 1) =~= rest.drop_first());
        }
        if x == c {
            let ghost dv0 = dv;
            proof {
                lemma_find_after_plain(cur@, rest, c);
                let w = cur@ + rest;
                assert(w.take(cur@.len() as int) =~= cur@);
                assert(w.skip(cur@.len() as int + 1) =~= rest.drop_first());
                assert(split_on(w, c) == seq![cur@] + split_on(s@.skip(i + 1), c));
                assert(dv0 + (seq![cur@] + split_on(s@.skip(i + 1), c)) =~= dv0.push(cur@) + split_on(s@.skip(i + 1), c));
                dv = dv.push(cur@);
            }
            let piece = cur;
            done.push(piece);
            cur = Vec::new();
            proof {
                assert(cur@ + s@.skip(i + 1) =~= s@.skip(i + 1));
                assert(split_on(s@, c) == dv + split_on(cur@ + s@.skip(i + 1), c));
            }
        } else {
            let ghost cur0 = cur@;
            cur.push(x);
            proof {
                assert(cur@ + s@.skip(i + 1) =~= cur0 + rest);
            }
        }
        i = i + 1;
    }
    proof {
        assert(s@.skip(s@.len() as int) =~= Seq::<char>::empty());
        assert(cur@ + s@.skip(i as int) =~= cur@);
        lemma_find_after_plain(cur@, Seq::<char>::empty(), c);
        assert(cur@ + Seq::<char>::empty() =~= cur@);
        dv = dv.push(cur@);
    }
    done.push(cur);
    proof {
        assert(split_on(s@, c) =~= dv);
    }
    done
}


pub(crate) proof fn lemma_digit_char(d: int)
    requires
        0 <= d <= 9,
    ensures
        is_digit(digit_char(d)),
        digit_char(d) as u32 == 48 + d,
{
}

/// The decimal digits of `n` are at least one digit, and spell `n`.
pub(crate) proof fn lemma_nat_digits(n: nat)
    ensures
        nat_digits(n).len() >= 1,
        all_digits(nat_digits(n)),
        digits_value(nat_digits(n)) == n,
    decreases n,
{
    assert('0' as u32 == 48);
    if n < 10 {
        lemma_digit_char(n as int);
        assert(nat_digits(n).drop_last() =~= Seq::<char>::empty());
        assert(digits_value(nat_digits(n)) == 10 * digits_value(Seq::<char>::empty()) + (digit_char(n as int) as u32 - '0' as u32));
    } else {
        lemma_nat_digits(n / 10);
        lemma_digit_char((n % 10) as int);
        let s = nat_digits(n);
        assert(s.drop_last() =~= nat_digits(n / 10));
        assert(s.last() == digit_char((n % 10) as int));
        assert(digits_value(s) == 10 * digits_value(nat_digits(n / 10)) + (digit_char((n % 10) as int) as u32 - '0' as u32));
        assert(10 * (n / 10) + n % 10 == n);
        assert forall|i: int| 0 <= i < s.len() implies is_digit(#[trigger] s[i]) by {
            if i < s.len() - 1 {
                assert(s[i] == nat_digits(n / 10)[i]);
            }
        }
    }
}

/// The decimal text of an `i32` reads back as the same `i32`; it is made of digits
/// and at most a leading '-'.
pub(crate) proof fn lemma_int_text(i: int)
    requires
        i32::MIN <= i <= i32::MAX,
    ensures
        parse_i32_text(int_text(i)) == Some(i as i32),
        int_text(i).len() >= 1,
        forall|k: int| 0 <= k < int_text(i).len() ==> #[trigger] int_text(i)[k] == '-' || is_digit(int_text(i)[k]),
        !is_ws(int_text(i).last()),
{
    if i < 0 {
        let n = (-i) as nat;
        lemma_nat_digits(n);
        let s = int_text(i);
        assert(unsigned_part(s) =~= nat_digits(n));
        assert forall|k: int| 0 <= k < s.len() implies #[trigger] s[k] == '-' || is_digit(s[k]) by {
            if k > 0 {
                assert(s[k] == nat_digits(n)[k - 1]);
            }
        }
        assert(s.last() == nat_digits(n).last());
        assert(is_digit(nat_digits(n)[nat_digits(n).len() - 1]));
    } else {
        let n = i as nat;
        lemma_nat_digits(n);
        let s = int_text(i);
        assert(is_digit(s[0]));
        assert(unsigned_part(s) == s);
        assert(is_digit(s[s.len() - 1]));
    }
}

/// Removing a character that does not occur changes nothing.
pub(crate) proof fn lemma_without_absent(s: Seq<char>, c: char)
    requires
        forall|k: int| 0 <= k < s.len() ==> s[k] != c,
    ensures
        without_char(s, c) == s,
    decreases s.len(),
{
    if s.len() > 0 {
        lemma_without_absent(s.drop_last(), c);
        assert(s.drop_last().push(s.last()) =~= s);
    }
}

} // verus!
