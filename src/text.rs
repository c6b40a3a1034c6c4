use vstd::prelude::*;

verus! {

/// ASCII whitespace: space, tab, line feed, form feed, carriage return.
pub open spec fn is_space(b: u8) -> bool {
    b == 32 || b == 9 || b == 10 || b == 12 || b == 13
}

pub open spec fn is_digit(b: u8) -> bool {
    48 <= b <= 57
}

/// First index from `i` on that does not hold whitespace.
pub open spec fn skip_space(s: Seq<u8>, i: int) -> int
    decreases s.len() - i,
{
    if 0 <= i < s.len() && is_space(s[i]) {
        skip_space(s, i + 1)
    } else {
        i
    }
}

/// First index from `i` on that holds whitespace, or the end.
pub open spec fn skip_token(s: Seq<u8>, i: int) -> int
    decreases s.len() - i,
{
    if 0 <= i < s.len() && !is_space(s[i]) {
        skip_token(s, i + 1)
    } else {
        i
    }
}

/// Where field `k` of the line begins (fields are separated by runs of
/// whitespace).
pub open spec fn field_start(s: Seq<u8>, k: nat) -> int
    decreases k,
{
    if k == 0 {
        skip_space(s, 0)
    } else {
        skip_space(s, skip_token(s, field_start(s, (k - 1) as nat)))
    }
}

/// Field `k` of the line; empty where the line has fewer fields.
pub open spec fn field(s: Seq<u8>, k: nat) -> Seq<u8> {
    s.subrange(field_start(s, k), skip_token(s, field_start(s, k)))
}

/// Decimal value of a run of digits.
pub open spec fn digits_value(t: Seq<u8>) -> int
    decreases t.len(),
{
    if t.len() == 0 {
        0
    } else {
        digits_value(t.drop_last()) * 10 + (t.last() - 48)
    }
}

pub open spec fn all_digits(t: Seq<u8>) -> bool {
    forall|i: int| 0 <= i < t.len() ==> is_digit(#[trigger] t[i])
}

/// The integer that `t` spells: an optional sign, then one or more digits.
pub open spec fn int_value(t: Seq<u8>) -> Option<int> {
    if t.len() > 0 && (t[0] == 45 || t[0] == 43) {
        let m = t.drop_first();
        if m.len() > 0 && all_digits(m) {
            Some(if t[0] == 45 { -digits_value(m) } else { digits_value(m) })
        } else {
            None
        }
    } else if t.len() > 0 && all_digits(t) {
        Some(digits_value(t))
    } else {
        None
    }
}

/// Value, in units of 1e-7, of the first `n` fraction digits of `f`, missing
/// digits counting as zero.
pub open spec fn frac_units(f: Seq<u8>, n: nat) -> int
    decreases n,
{
    if n == 0 {
        0
    } else {
        frac_units(f, (n - 1) as nat) * 10 + if n - 1 < f.len() { f[n - 1] - 48 } else { 0 }
    }
}

/// Index of the first '.' in `t` from `i` on, or its length.
pub open spec fn dot_from(t: Seq<u8>, i: int) -> int
    decreases t.len() - i,
{
    if i < 0 || i >= t.len() {
        t.len() as int
    } else if t[i] == 46 {
        i
    } else {
        dot_from(t, i + 1)
    }
}

/// Index of the first '.' in `t`, or its length.
pub open spec fn dot_index(t: Seq<u8>) -> int {
    dot_from(t, 0)
}

/// The magnitude, in units of 1e-7, of an unsigned decimal `digits[.digits]`;
/// fraction digits past the seventh are dropped.
pub open spec fn unsigned_degrees(t: Seq<u8>) -> Option<int> {
    let d = dot_index(t);
    let ip = t.subrange(0, d);
    let fp = if d < t.len() { t.subrange(d + 1, t.len() as int) } else { Seq::empty() };
    if ip.len() > 0 && all_digits(ip) && all_digits(fp) && (d == t.len() || fp.len() > 0) {
        Some(digits_value(ip) * 10_000_000 + frac_units(fp, 7))
    } else {
        None
    }
}

/// Degrees written as an optional sign and a decimal, in units of 1e-7.
pub open spec fn degrees_value(t: Seq<u8>) -> Option<int> {
    if t.len() > 0 && (t[0] == 45 || t[0] == 43) {
        match unsigned_degrees(t.drop_first()) {
            Some(v) => Some(if t[0] == 45 { -v } else { v }),
            None => None,
        }
    } else {
        unsigned_degrees(t)
    }
}

proof fn lemma_skip_space_bounds(s: Seq<u8>, i: int)
    requires
        0 <= i <= s.len(),
    ensures
        i <= skip_space(s, i) <= s.len(),
    decreases s.len() - i,
{
    if i < s.len() && is_space(s[i]) {
        lemma_skip_space_bounds(s, i + 1);
    }
}

proof fn lemma_skip_token_bounds(s: Seq<u8>, i: int)
    requires
        0 <= i <= s.len(),
    ensures
        i <= skip_token(s, i) <= s.len(),
    decreases s.len() - i,
{
    if i < s.len() && !is_space(s[i]) {
        lemma_skip_token_bounds(s, i + 1);
    }
}

pub proof fn lemma_field_bounds(s: Seq<u8>, k: nat)
    ensures
        0 <= field_start(s, k) <= skip_token(s, field_start(s, k)) <= s.len(),
    decreases k,
{
    if k == 0 {
        lemma_skip_space_bounds(s, 0);
    } else {
        lemma_field_bounds(s, (k - 1) as nat);
        lemma_skip_space_bounds(s, skip_token(s, field_start(s, (k - 1) as nat)));
    }
    lemma_skip_token_bounds(s, field_start(s, k));
}

fn is_space_byte(b: u8) -> (r: bool)
    ensures
        r == is_space(b),
{
    b == 32 || b == 9 || b == 10 || b == 12 || b == 13
}

/// The bounds of field `k` of `s`: where it begins and where it ends.
pub fn field_bounds(s: &[u8], k: usize) -> (r: (usize, usize))
    ensures
        r.0 == field_start(s@, k as nat),
        r.1 == skip_token(s@, field_start(s@, k as nat)),
        r.0 <= r.1 <= s@.len(),
{
    let mut start: usize = 0;
    while start < s.len() && is_space_byte(s[start])
        invariant
            start <= s.len(),
            skip_space(s@, start as int) == skip_space(s@, 0),
        decreases s.len() - start,
    {
        start += 1;
    }
    let mut j: usize = 0;
    loop
        invariant
            j <= k,
            start == field_start(s@, j as nat),
            start <= s.len(),
        decreases k - j,
    {
        let mut end = start;
        while end < s.len() && !is_space_byte(s[end])
            invariant
                start <= end <= s.len(),
                skip_token(s@, end as int) == skip_token(s@, start as int),
            decreases s.len() - end,
        {
            end += 1;
        }
        if j == k {
            return (start, end);
        }
        let mut next = end;
        while next < s.len() && is_space_byte(s[next])
            invariant
                end <= next <= s.len(),
                skip_space(s@, next as int) == skip_space(s@, end as int),
            decreases s.len() - next,
        {
            next += 1;
        }
        start = next;
        j += 1;
    }
}

proof fn lemma_digits_prefix(t: Seq<u8>, i: int)
    requires
        0 <= i <= t.len(),
        all_digits(t),
    ensures
        digits_value(t.subrange(0, i)) <= digits_value(t),
        digits_value(t) >= 0,
    decreases t.len(),
{
    if t.len() > 0 {
        let u = t.drop_last();
        assert(all_digits(u)) by {
            assert forall|j: int| 0 <= j < u.len() implies is_digit(#[trigger] u[j]) by {
                assert(t[j] == u[j]);
            }
        }
        assert(is_digit(t[t.len() - 1]));
        if i == t.len() {
            assert(t.subrange(0, i) =~= t);
            lemma_digits_prefix(u, 0);
        } else {
            assert(t.subrange(0, i) =~= u.subrange(0, i));
            lemma_digits_prefix(u, i);
        }
    } else {
        assert(t.subrange(0, i) =~= t);
    }
}

/// Value of the digits in `s[lo..hi]`, if that range is one or more digits
/// and the value is at most `limit`.
fn parse_digits(s: &[u8], lo: usize, hi: usize, limit: u64) -> (r: Option<u64>)
    requires
        lo <= hi <= s@.len(),
    ensures
        r is Some <==> (hi > lo && all_digits(s@.subrange(lo as int, hi as int))
            && digits_value(s@.subrange(lo as int, hi as int)) <= limit),
        r matches Some(v) ==> v == digits_value(s@.subrange(lo as int, hi as int)),
{
    if lo == hi {
        return None;
    }
    let mut v: u64 = 0;
    let mut i: usize = lo;
    while i < hi
        invariant
            lo <= i <= hi <= s@.len(),
            all_digits(s@.subrange(lo as int, i as int)),
            v == digits_value(s@.subrange(lo as int, i as int)),
            v <= limit,
        decreases hi - i,
    {
        let b = s[i];
        let ghost t = s@.subrange(lo as int, hi as int);
        let ghost pre = s@.subrange(lo as int, i as int);
        let ghost next = s@.subrange(lo as int, i + 1);
        assert(next.drop_last() =~= pre);
        assert(next.last() == b);
        if !(48 <= b && b <= 57) {
            assert(t[i - lo] == b);
            return None;
        }
        let nv: u128 = v as u128 * 10 + (b - 48) as u128;
        if nv > limit as u128 {
            proof {
                if all_digits(t) {
                    assert(t.subrange(0, i + 1 - lo) =~= next);
                    lemma_digits_prefix(t, i + 1 - lo);
                }
            }
            return None;
        }
        v = nv as u64;
        proof {
            assert forall|j: int| 0 <= j < next.len() implies is_digit(#[trigger] next[j]) by {
                if j < pre.len() {
                    assert(next[j] == pre[j]);
                }
            }
        }
        i += 1;
    }
    Some(v)
}

/// The count that a header field spells: one or more digits.
pub fn parse_count(t: &[u8]) -> (r: Option<usize>)
    ensures
        r is Some <==> (t@.len() > 0 && all_digits(t@) && digits_value(t@) <= usize::MAX),
        r matches Some(v) ==> v == digits_value(t@),
{
    assert(t@.subrange(0, t@.len() as int) =~= t@);
    match parse_digits(t, 0, t.len(), usize::MAX as u64) {
        Some(v) => Some(v as usize),
        None => None,
    }
}

/// The signed 64-bit integer that `t` spells.
pub fn parse_int(t: &[u8]) -> (r: Option<i64>)
    ensures
        r is Some <==> (int_value(t@) matches Some(x) && i64::MIN <= x <= i64::MAX),
        r matches Some(v) ==> int_value(t@) == Some(v as int),
{
    let n = t.len();
    if n > 0 && (t[0] == 45 || t[0] == 43) {
        assert(t@.subrange(1, n as int) =~= t@.drop_first());
        let neg = t[0] == 45;
        let limit: u64 = if neg { 9_223_372_036_854_775_808 } else { 9_223_372_036_854_775_807 };
        match parse_digits(t, 1, n, limit) {
            Some(m) => {
                if neg {
                    if m == 9_223_372_036_854_775_808 {
                        Some(i64::MIN)
                    } else {
                        Some(-(m as i64))
                    }
                } else {
                    Some(m as i64)
                }
            },
            None => None,
        }
    } else {
        assert(t@.subrange(0, n as int) =~= t@);
        match parse_digits(t, 0, n, 9_223_372_036_854_775_807) {
            Some(m) => Some(m as i64),
            None => None,
        }
    }
}

pub open spec fn pow10(n: nat) -> int
    decreases n,
{
    if n == 0 {
        1
    } else {
        pow10((n - 1) as nat) * 10
    }
}

proof fn lemma_frac_units_nonneg(f: Seq<u8>, n: nat)
    requires
        all_digits(f),
    ensures
        frac_units(f, n) >= 0,
    decreases n,
{
    if n > 0 {
        lemma_frac_units_nonneg(f, (n - 1) as nat);
        if n - 1 < f.len() {
            assert(is_digit(f[n - 1]));
        }
    }
}

proof fn lemma_dot_from_bounds(t: Seq<u8>, i: int)
    requires
        0 <= i <= t.len(),
    ensures
        i <= dot_from(t, i) <= t.len(),
        forall|j: int| i <= j < dot_from(t, i) ==> t[j] != 46,
    decreases t.len() - i,
{
    if i < t.len() && t[i] != 46 {
        lemma_dot_from_bounds(t, i + 1);
    }
}

/// The magnitude in `s[lo..]` of unsigned degrees, if it is at most `i64::MAX`.
#[verifier::loop_isolation(false)]
fn parse_unsigned_degrees(s: &[u8], lo: usize) -> (r: Option<i64>)
    requires
        lo <= s@.len(),
    ensures
        r is Some <==> (unsigned_degrees(s@.subrange(lo as int, s@.len() as int)) matches Some(x) && x <= i64::MAX),
        r matches Some(v) ==> unsigned_degrees(s@.subrange(lo as int, s@.len() as int)) == Some(v as int),
{
    let n = s.len();
    let ghost t = s@.subrange(lo as int, n as int);
    let mut d: usize = lo;
    while d < n && s[d] != 46
        invariant
            lo <= d <= n,
            n == s@.len(),
            t == s@.subrange(lo as int, n as int),
            dot_from(t, (d - lo) as int) == dot_from(t, 0),
        decreases n - d,
    {
        assert(t[d - lo] == s@[d as int]);
        d += 1;
    }
    proof {
        if d < n {
            assert(t[d - lo] == s@[d as int]);
        }
        assert(dot_index(t) == d - lo);
    }
    let ghost ip = t.subrange(0, d - lo);
    let ghost fp = if d < n { t.subrange(d - lo + 1, t.len() as int) } else { Seq::<u8>::empty() };
    assert(ip =~= s@.subrange(lo as int, d as int));
    assert(t.subrange(0, dot_index(t)) == ip);
    let whole = match parse_digits(s, lo, d, 922_337_203_685) {
        Some(w) => w,
        None => {
            proof {
                if ip.len() > 0 && all_digits(ip) {
                    assert(digits_value(ip) > 922_337_203_685);
                    assert(digits_value(ip) * 10_000_000 > i64::MAX) by (nonlinear_arith)
                        requires digits_value(ip) > 922_337_203_685;
                    if all_digits(fp) {
                        lemma_frac_units_nonneg(fp, 7);
                    }
                }
            }
            return None;
        },
    };
    let fstart: usize = if d < n { d + 1 } else { n };
    if d < n && fstart == n {
        assert(fp.len() == 0);
        assert(t.subrange(dot_index(t) + 1, t.len() as int).len() == 0);
        return None;
    }
    let mut k: usize = fstart;
    while k < n
        invariant
            fstart <= k <= n,
            n == s@.len(),
            fstart == (if d < n { d + 1 } else { n as int }),
            fp =~= s@.subrange(fstart as int, n as int),
            forall|j: int| 0 <= j < k - fstart ==> is_digit(#[trigger] fp[j]),
        decreases n - k,
    {
        if !(48 <= s[k] && s[k] <= 57) {
            assert(fp[k - fstart] == s@[k as int]);
            assert(!all_digits(fp));
            return None;
        }
        k += 1;
    }
    let mut f: u64 = 0;
    let mut c: usize = 0;
    while c < 7
        invariant
            c <= 7,
            n == s@.len(),
            fp =~= s@.subrange(fstart as int, n as int),
            fstart <= n,
            all_digits(fp),
            f == frac_units(fp, c as nat),
            0 <= f < pow10(c as nat),
        decreases 7 - c,
    {
        proof {
            if c < n - fstart {
                assert(fp[c as int] == s@[fstart + c]);
                assert(is_digit(fp[c as int]));
            }
            assert(pow10(c as nat) <= 1_000_000) by {
                reveal_with_fuel(pow10, 8);
                assert(c == 0 || c == 1 || c == 2 || c == 3 || c == 4 || c == 5 || c == 6);
            }
            assert(pow10((c + 1) as nat) == pow10(c as nat) * 10);
        }
        let digit: u64 = if c < n - fstart { (s[fstart + c] - 48) as u64 } else { 0 };
        assert(f * 10 + digit < pow10((c + 1) as nat)) by (nonlinear_arith)
            requires f < pow10(c as nat), digit <= 9, pow10((c + 1) as nat) == pow10(c as nat) * 10;
        f = f * 10 + digit;
        c += 1;
    }
    assert(pow10(7) == 10_000_000) by {
        reveal_with_fuel(pow10, 8);
    }
    let total: u128 = whole as u128 * 10_000_000 + f as u128;
    if total > 9_223_372_036_854_775_807 {
        return None;
    }
    Some(total as i64)
}

/// Degrees that `t` spells (optional sign, digits, optional '.' and
/// digits), in units of 1e-7 degree.
pub fn parse_degrees(t: &[u8]) -> (r: Option<i64>)
    ensures
        r is Some <==> (degrees_value(t@) matches Some(x) && -i64::MAX <= x <= i64::MAX),
        r matches Some(v) ==> degrees_value(t@) == Some(v as int),
{
    let n = t.len();
    if n > 0 && (t[0] == 45 || t[0] == 43) {
        assert(t@.subrange(1, n as int) =~= t@.drop_first());
        match parse_unsigned_degrees(t, 1) {
            Some(m) => {
                proof {
                    lemma_unsigned_degrees_nonneg(t@.drop_first());
                }
                if t[0] == 45 {
                    Some(-m)
                } else {
                    Some(m)
                }
            },
            None => {
                proof {
                    if unsigned_degrees(t@.drop_first()) is Some {
                        lemma_unsigned_degrees_nonneg(t@.drop_first());
                    }
                }
                None
            },
        }
    } else {
        assert(t@.subrange(0, n as int) =~= t@);
        let r = parse_unsigned_degrees(t, 0);
        proof {
            if unsigned_degrees(t@) is Some {
                lemma_unsigned_degrees_nonneg(t@);
            }
        }
        r
    }
}

proof fn lemma_unsigned_degrees_nonneg(t: Seq<u8>)
    requires
        unsigned_degrees(t) is Some,
    ensures
        unsigned_degrees(t)->0 >= 0,
{
    let d = dot_index(t);
    let ip = t.subrange(0, d);
    let fp = if d < t.len() { t.subrange(d + 1, t.len() as int) } else { Seq::empty() };
    lemma_digits_prefix(ip, 0);
    lemma_frac_units_nonneg(fp, 7);
}

} // verus!